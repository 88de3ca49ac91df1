//! Open ports: what `netstat` and `lsof` report of them, and the list that
//! a scan returns.
use vstd::prelude::*;

use crate::number::{decimal_digits, parse_u16, parse_u16_value, parse_u32, parse_u32_value};
use crate::text::{
    is_white_space, is_word, after_last_dot, after_last_dot_start, lines, split_lines, split_words, string_from_chars,
    views, words,
};

verus! {

/// One listening port and the process that holds it, where known.
#[derive(Debug, Clone)]
pub struct PortInfo {
    pub port: u16,
    pub protocol: String,
    pub pid: Option<u32>,
    pub process_name: Option<String>,
}

/// The contents of a [`PortInfo`].
pub struct PortInfoView {
    pub port: u16,
    pub protocol: Seq<char>,
    pub pid: Option<u32>,
    pub process_name: Option<Seq<char>>,
}

impl View for PortInfo {
    type V = PortInfoView;

    open spec fn view(&self) -> PortInfoView {
        PortInfoView {
            port: self.port,
            protocol: self.protocol@,
            pid: self.pid,
            process_name: match self.process_name {
                Some(name) => Some(name@),
                None => None,
            },
        }
    }
}

/// The name of the protocol that a scan reports.
pub open spec fn tcp_name() -> Seq<char> {
    seq!['T', 'C', 'P']
}

/// The contents of a sequence of port entries.
pub open spec fn port_views(v: Seq<PortInfo>) -> Seq<PortInfoView> {
    v.map_values(|p: PortInfo| p@)
}

impl PortInfo {
    /// The entry of a TCP port whose process is not known yet.
    pub fn tcp(port: u16) -> (p: PortInfo)
        ensures
            p@ == (PortInfoView { port, protocol: tcp_name(), pid: None, process_name: None }),
    {
        let protocol = String::from_str("TCP");
        proof {
            reveal_strlit("TCP");
            assert(protocol@ =~= tcp_name());
        }
        PortInfo { port, protocol, pid: None, process_name: None }
    }

    /// A copy of this entry.
    pub fn duplicate(&self) -> (p: PortInfo)
        ensures
            p@ == self@,
    {
        let process_name = match &self.process_name {
            Some(name) => Some(name.clone()),
            None => None,
        };
        PortInfo { port: self.port, protocol: self.protocol.clone(), pid: self.pid, process_name }
    }
}

/// The listening port that a line of `netstat -anp tcp` reports, given the
/// words of that line: one whose first word starts with `tcp`, whose sixth
/// word is `LISTEN`, and whose fourth word, the local address, ends after its
/// last `.` in a port number no lower than `min_port`.
pub open spec fn netstat_listen_port(cols: Seq<Seq<char>>, min_port: u16) -> Option<u16> {
    if cols.len() >= 6 && cols[0].len() >= 3 && cols[0].take(3) == seq!['t', 'c', 'p']
        && cols[5] == seq!['L', 'I', 'S', 'T', 'E', 'N'] {
        match parse_u16_value(after_last_dot(cols[3])) {
            Some(p) => if p >= min_port {
                Some(p)
            } else {
                None
            },
            None => None,
        }
    } else {
        None
    }
}

/// The listening ports that the lines `ls` of `netstat` output report, in
/// the order of the lines.
pub open spec fn netstat_ports(ls: Seq<Seq<char>>, min_port: u16) -> Seq<u16>
    decreases ls.len(),
{
    if ls.len() == 0 {
        Seq::empty()
    } else {
        let rest = netstat_ports(ls.drop_first(), min_port);
        match netstat_listen_port(words(ls[0]), min_port) {
            Some(p) => seq![p] + rest,
            None => rest,
        }
    }
}

/// The listening port that one line of `netstat` output reports, given the
/// words of that line.
pub fn listen_port_of(cols: &Vec<Vec<char>>, min_port: u16) -> (r: Option<u16>)
    ensures
        r == netstat_listen_port(views(cols@), min_port),
{
    let ghost c = views(cols@);
    if cols.len() < 6 {
        return None;
    }
    let proto = &cols[0];
    let state = &cols[5];
    proof {
        assert(c[0] == proto@);
        assert(c[5] == state@);
        assert(c[3] == cols@[3]@);
    }
    if !(proto.len() >= 3 && proto[0] == 't' && proto[1] == 'c' && proto[2] == 'p') {
        proof {
            if c[0].len() >= 3 && c[0].take(3) == seq!['t', 'c', 'p'] {
                assert(c[0].take(3)[1] == 'c');
                assert(c[0].take(3)[2] == 'p');
            }
        }
        return None;
    }
    proof {
        assert(c[0].take(3) =~= seq!['t', 'c', 'p']);
    }
    if !(state.len() == 6 && state[0] == 'L' && state[1] == 'I' && state[2] == 'S' && state[3]
        == 'T' && state[4] == 'E' && state[5] == 'N') {
        proof {
            if c[5] == seq!['L', 'I', 'S', 'T', 'E', 'N'] {
                assert(c[5][1] == 'I');
                assert(c[5][2] == 'S');
                assert(c[5][3] == 'T');
                assert(c[5][4] == 'E');
                assert(c[5][5] == 'N');
            }
        }
        return None;
    }
    proof {
        assert(c[5] =~= seq!['L', 'I', 'S', 'T', 'E', 'N']);
    }
    let addr = cols[3].as_slice();
    let start = after_last_dot_start(addr);
    let tail = &addr[start..addr.len()];
    match parse_u16(tail) {
        Some(p) => if p >= min_port {
            Some(p)
        } else {
            None
        },
        None => None,
    }
}

/// The listening ports that `netstat -anp tcp` prints, at or above
/// `min_port`, in the order of its lines.
pub fn listening_ports(netstat_output: &[char], min_port: u16) -> (ports: Vec<u16>)
    ensures
        ports@ == netstat_ports(lines(netstat_output@), min_port),
{
    let ls = split_lines(netstat_output);
    let ghost all = views(ls@);
    let mut ports: Vec<u16> = Vec::new();
    let mut i: usize = 0;
    proof {
        assert(all.skip(0) =~= all);
        assert(ports@ + netstat_ports(all.skip(0), min_port) =~= netstat_ports(all, min_port));
    }
    while i < ls.len()
        invariant
            i <= ls@.len(),
            all == views(ls@),
            all == lines(netstat_output@),
            ports@ + netstat_ports(all.skip(i as int), min_port) == netstat_ports(all, min_port),
        decreases ls@.len() - i,
    {
        let cols = split_words(ls[i].as_slice());
        let found = listen_port_of(&cols, min_port);
        let ghost before = ports@;
        proof {
            assert(all.skip(i as int).drop_first() =~= all.skip(i + 1));
            assert(all.skip(i as int)[0] == ls@[i as int]@);
        }
        match found {
            Some(p) => {
                ports.push(p);
                proof {
                    assert(before + netstat_ports(all.skip(i as int), min_port) =~= ports@
                        + netstat_ports(all.skip(i + 1), min_port));
                }
            },
            None => {},
        }
        i = i + 1;
    }
    proof {
        assert(all.skip(i as int) =~= Seq::<Seq<char>>::empty());
        assert(ports@ + netstat_ports(all.skip(i as int), min_port) =~= ports@);
    }
    ports
}

} // verus!

verus! {

/// The process that the lines `ls` of `lsof` output name, from line `i` on:
/// the first line with at least two words gives the command name, its first
/// word, and the process id, its second word where that reads as a `u32`.
pub open spec fn lsof_owner_from(ls: Seq<Seq<char>>, i: int) -> Option<(Seq<char>, Option<u32>)>
    decreases ls.len() - i,
{
    if i < 0 || i >= ls.len() {
        None
    } else if words(ls[i]).len() >= 2 {
        Some((words(ls[i])[0], parse_u32_value(words(ls[i])[1])))
    } else {
        lsof_owner_from(ls, i + 1)
    }
}

/// The process that `lsof -i :PORT -P -n -sTCP:LISTEN` output names, below
/// its header line.
pub open spec fn lsof_owner(lsof_output: Seq<char>) -> Option<(Seq<char>, Option<u32>)> {
    lsof_owner_from(lines(lsof_output), 1)
}

/// `info` with the process that `lsof_output` names, where it names one.
pub open spec fn enriched(info: PortInfoView, lsof_output: Seq<char>) -> PortInfoView {
    match lsof_owner(lsof_output) {
        Some((name, pid)) => PortInfoView {
            port: info.port,
            protocol: info.protocol,
            pid: pid,
            process_name: Some(name),
        },
        None => info,
    }
}

/// Fills in the process of `info` from what `lsof` printed for its port:
/// below the header line, the first line with at least two words gives the
/// command name and the process id, the latter only where it reads as a
/// `u32`. Where no such line exists, `info` comes back unchanged.
pub fn enrich_from_lsof(info: PortInfo, lsof_output: &[char]) -> (res: PortInfo)
    ensures
        res@ == enriched(info@, lsof_output@),
{
    let ls = split_lines(lsof_output);
    let ghost all = views(ls@);
    let mut i: usize = 1;
    while i < ls.len()
        invariant
            1 <= i,
            all == views(ls@),
            all == lines(lsof_output@),
            lsof_owner_from(all, i as int) == lsof_owner(lsof_output@),
        decreases ls@.len() - i,
    {
        let cols = split_words(ls[i].as_slice());
        proof {
            assert(all[i as int] == ls@[i as int]@);
        }
        if cols.len() >= 2 {
            let name = string_from_chars(cols[0].as_slice());
            let pid = parse_u32(cols[1].as_slice());
            proof {
                assert(views(cols@)[0] == cols@[0]@);
                assert(views(cols@)[1] == cols@[1]@);
            }
            return PortInfo { port: info.port, protocol: info.protocol, pid, process_name: Some(name) };
        }
        i = i + 1;
    }
    info
}

} // verus!

verus! {

/// Whether no entry before index `j` of `s` has the port of `s[j]`.
pub open spec fn first_with_port(s: Seq<PortInfoView>, j: int) -> bool {
    forall|k: int| 0 <= k < j ==> #[trigger] s[k].port != s[j].port
}

/// Whether some entry of `s` has the port `p`.
pub open spec fn has_port(s: Seq<PortInfoView>, p: u16) -> bool {
    exists|a: int| 0 <= a < s.len() && #[trigger] s[a].port == p
}

/// Whether `v` is the first entry of `input` with its port.
pub open spec fn is_first_entry(input: Seq<PortInfoView>, v: PortInfoView) -> bool {
    exists|j: int| 0 <= j < input.len() && first_with_port(input, j) && #[trigger] input[j] == v
}

/// Whether `res` is what sorting `input` by port, stably, and then dropping
/// each entry whose port equals that of the entry before it leaves: the
/// ports rise strictly, each entry is the first entry of `input` with its
/// port, and every port of `input` is there.
pub open spec fn sorted_unique_of(res: Seq<PortInfoView>, input: Seq<PortInfoView>) -> bool {
    &&& forall|a: int, b: int| 0 <= a < b < res.len() ==> res[a].port < res[b].port
    &&& forall|a: int| 0 <= a < res.len() ==> is_first_entry(input, #[trigger] res[a])
    &&& forall|j: int| 0 <= j < input.len() ==> has_port(res, #[trigger] input[j].port)
}

/// An entry whose port is already kept changes nothing.
proof fn lemma_dedup_keep(res: Seq<PortInfoView>, input: Seq<PortInfoView>, i: int, pos: int)
    requires
        0 <= i < input.len(),
        sorted_unique_of(res, input.take(i)),
        0 <= pos < res.len(),
        res[pos].port == input[i].port,
    ensures
        sorted_unique_of(res, input.take(i + 1)),
{
    let pre = input.take(i);
    let post = input.take(i + 1);
    assert forall|a: int| 0 <= a < res.len() implies is_first_entry(post, #[trigger] res[a]) by {
        assert(is_first_entry(pre, res[a]));
        let j = choose|j: int|
            0 <= j < pre.len() && first_with_port(pre, j) && #[trigger] pre[j] == res[a];
        assert(post[j] == pre[j]);
        assert forall|k: int| 0 <= k < j implies #[trigger] post[k].port != post[j].port by {
            assert(post[k] == pre[k]);
        }
        assert(first_with_port(post, j));
    }
    assert forall|j: int| 0 <= j < post.len() implies has_port(res, #[trigger] post[j].port) by {
        if j < i {
            assert(post[j] == pre[j]);
            assert(has_port(res, pre[j].port));
        } else {
            assert(post[j] == input[i]);
            assert(res[pos].port == post[j].port);
        }
    }
}

/// An entry with a port not kept yet goes in at its place in port order.
proof fn lemma_dedup_insert(res: Seq<PortInfoView>, input: Seq<PortInfoView>, i: int, pos: int)
    requires
        0 <= i < input.len(),
        sorted_unique_of(res, input.take(i)),
        0 <= pos <= res.len(),
        forall|a: int| 0 <= a < pos ==> #[trigger] res[a].port < input[i].port,
        pos < res.len() ==> res[pos].port > input[i].port,
    ensures
        sorted_unique_of(res.insert(pos, input[i]), input.take(i + 1)),
{
    let pre = input.take(i);
    let post = input.take(i + 1);
    let new_res = res.insert(pos, input[i]);
    let p = input[i].port;
    assert(post[i] == input[i]);
    assert forall|a: int| pos <= a < res.len() implies #[trigger] res[a].port > p by {
        if a > pos {
            assert(res[pos].port < res[a].port);
        }
    }
    assert forall|k: int| 0 <= k < i implies #[trigger] post[k].port != post[i].port by {
        assert(post[k] == pre[k]);
        if pre[k].port == p {
            assert(has_port(res, pre[k].port));
            let a = choose|a: int| 0 <= a < res.len() && #[trigger] res[a].port == pre[k].port;
            assert(res[a].port == p);
        }
    }
    assert(first_with_port(post, i));
    assert forall|a: int, b: int| 0 <= a < b < new_res.len() implies new_res[a].port
        < new_res[b].port by {
        if a < pos {
            assert(new_res[a] == res[a]);
        } else if a > pos {
            assert(new_res[a] == res[a - 1]);
        }
        if b < pos {
            assert(new_res[b] == res[b]);
        } else if b > pos {
            assert(new_res[b] == res[b - 1]);
        }
    }
    assert forall|a: int| 0 <= a < new_res.len() implies is_first_entry(
        post,
        #[trigger] new_res[a],
    ) by {
        if a == pos {
            assert(post[i] == new_res[a]);
        } else {
            let a0 = if a < pos {
                a
            } else {
                a - 1
            };
            assert(new_res[a] == res[a0]);
            assert(is_first_entry(pre, res[a0]));
            let j = choose|j: int|
                0 <= j < pre.len() && first_with_port(pre, j) && #[trigger] pre[j] == res[a0];
            assert(post[j] == pre[j]);
            assert forall|k: int| 0 <= k < j implies #[trigger] post[k].port != post[j].port by {
                assert(post[k] == pre[k]);
            }
            assert(first_with_port(post, j));
        }
    }
    assert forall|j: int| 0 <= j < post.len() implies has_port(new_res, #[trigger] post[j].port) by {
        if j == i {
            assert(new_res[pos].port == post[j].port);
        } else {
            assert(post[j] == pre[j]);
            assert(has_port(res, pre[j].port));
            let a = choose|a: int| 0 <= a < res.len() && #[trigger] res[a].port == pre[j].port;
            if a < pos {
                assert(new_res[a] == res[a]);
            } else {
                assert(new_res[a + 1] == res[a]);
            }
        }
    }
}

/// Sorts the entries by port and keeps, of the entries that share a port,
/// the one that came first: what `sort_by_key` on the port followed by
/// `dedup_by_key` on the port does.
pub fn sort_dedup_by_port(entries: Vec<PortInfo>) -> (res: Vec<PortInfo>)
    ensures
        sorted_unique_of(port_views(res@), port_views(entries@)),
{
    let ghost input = port_views(entries@);
    let mut res: Vec<PortInfo> = Vec::new();
    let n = entries.len();
    let mut i: usize = 0;
    proof {
        assert(port_views(res@) =~= Seq::<PortInfoView>::empty());
    }
    while i < n
        invariant
            n == entries@.len(),
            i <= n,
            input == port_views(entries@),
            sorted_unique_of(port_views(res@), input.take(i as int)),
        decreases n - i,
    {
        let p = entries[i].port;
        let ghost old_res = port_views(res@);
        proof {
            assert(input[i as int].port == p);
        }
        let mut pos: usize = 0;
        while pos < res.len() && res[pos].port < p
            invariant
                pos <= res@.len(),
                old_res == port_views(res@),
                forall|a: int| 0 <= a < pos ==> #[trigger] old_res[a].port < p,
            decreases res@.len() - pos,
        {
            proof {
                assert(old_res[pos as int].port == res@[pos as int].port);
            }
            pos = pos + 1;
        }
        proof {
            if pos < res@.len() {
                assert(old_res[pos as int].port == res@[pos as int].port);
            }
        }
        if pos < res.len() && res[pos].port == p {
            proof {
                lemma_dedup_keep(old_res, input, i as int, pos as int);
            }
        } else {
            let e = entries[i].duplicate();
            res.insert(pos, e);
            proof {
                assert(port_views(res@) =~= old_res.insert(pos as int, input[i as int]));
                lemma_dedup_insert(old_res, input, i as int, pos as int);
            }
        }
        i = i + 1;
    }
    proof {
        assert(input.take(n as int) =~= input);
    }
    res
}

} // verus!

verus! {

/// The entry of port `port` once `lsof` has been asked about it: `None`
/// where `lsof` could not be run, else what it printed.
pub open spec fn probed_entry(port: u16, lsof_output: Option<Seq<char>>) -> PortInfoView {
    let raw = PortInfoView { port, protocol: tcp_name(), pid: None, process_name: None };
    match lsof_output {
        Some(out) => enriched(raw, out),
        None => raw,
    }
}

/// The contents of a sequence of optional outputs.
pub open spec fn output_views(v: Seq<Option<Vec<char>>>) -> Seq<Option<Seq<char>>> {
    v.map_values(
        |o: Option<Vec<char>>|
            match o {
                Some(out) => Some(out@),
                None => None,
            },
    )
}

/// The entries of the ports `ports`, in order, each filled in from the
/// `lsof` output of the same index.
pub open spec fn probed_entries(ports: Seq<u16>, lsof_outputs: Seq<Option<Seq<char>>>) -> Seq<
    PortInfoView,
> {
    Seq::new(ports.len(), |k: int| probed_entry(ports[k], lsof_outputs[k]))
}

/// The result of a scan: each listening port with the process that `lsof`
/// named for it (`lsof_outputs[k]` is what `lsof` printed for `ports[k]`,
/// `None` where it could not be run), sorted by port, the first entry of
/// each port kept.
pub fn build_scan(ports: &[u16], lsof_outputs: &Vec<Option<Vec<char>>>) -> (res: Vec<PortInfo>)
    requires
        ports@.len() == lsof_outputs@.len(),
    ensures
        sorted_unique_of(port_views(res@), probed_entries(ports@, output_views(lsof_outputs@))),
{
    let ghost want = probed_entries(ports@, output_views(lsof_outputs@));
    let mut entries: Vec<PortInfo> = Vec::new();
    let mut k: usize = 0;
    while k < ports.len()
        invariant
            k <= ports@.len(),
            ports@.len() == lsof_outputs@.len(),
            want == probed_entries(ports@, output_views(lsof_outputs@)),
            port_views(entries@) == want.take(k as int),
        decreases ports@.len() - k,
    {
        let raw = PortInfo::tcp(ports[k]);
        let entry = match &lsof_outputs[k] {
            Some(out) => enrich_from_lsof(raw, out.as_slice()),
            None => raw,
        };
        proof {
            assert(output_views(lsof_outputs@)[k as int] == match lsof_outputs@[k as int] {
                Some(out) => Some(out@),
                None => None::<Seq<char>>,
            });
            assert(entry@ == want[k as int]);
        }
        let ghost before = port_views(entries@);
        let ghost added = entry@;
        entries.push(entry);
        proof {
            assert(port_views(entries@) =~= before.push(added));
            assert(want.take(k + 1) =~= want.take(k as int).push(want[k as int]));
            assert(port_views(entries@) =~= want.take(k + 1));
        }
        k = k + 1;
    }
    proof {
        assert(want.take(k as int) =~= want);
    }
    sort_dedup_by_port(entries)
}

} // verus!

verus! {

/// Every port that `netstat` output yields is at or above the bound asked
/// for.
pub proof fn lemma_netstat_ports_at_least(ls: Seq<Seq<char>>, min_port: u16)
    ensures
        forall|k: int|
            0 <= k < netstat_ports(ls, min_port).len() ==> #[trigger] netstat_ports(
                ls,
                min_port,
            )[k] >= min_port,
    decreases ls.len(),
{
    if ls.len() > 0 {
        lemma_netstat_ports_at_least(ls.drop_first(), min_port);
        let rest = netstat_ports(ls.drop_first(), min_port);
        match netstat_listen_port(words(ls[0]), min_port) {
            Some(p) => {
                assert forall|k: int|
                    0 <= k < netstat_ports(ls, min_port).len() implies #[trigger] netstat_ports(
                    ls,
                    min_port,
                )[k] >= min_port by {
                    if k > 0 {
                        assert(netstat_ports(ls, min_port)[k] == rest[k - 1]);
                    }
                }
            },
            None => {},
        }
    }
}

/// Every entry of a scan has one of the ports that were asked about, so a
/// scan of ports at or above a bound lists only ports at or above it.
pub proof fn lemma_scan_ports_at_least(
    res: Seq<PortInfoView>,
    ports: Seq<u16>,
    lsof_outputs: Seq<Option<Seq<char>>>,
    min_port: u16,
)
    requires
        ports.len() == lsof_outputs.len(),
        forall|k: int| 0 <= k < ports.len() ==> #[trigger] ports[k] >= min_port,
        sorted_unique_of(res, probed_entries(ports, lsof_outputs)),
    ensures
        forall|a: int| 0 <= a < res.len() ==> #[trigger] res[a].port >= min_port,
{
    let input = probed_entries(ports, lsof_outputs);
    assert forall|a: int| 0 <= a < res.len() implies #[trigger] res[a].port >= min_port by {
        assert(is_first_entry(input, res[a]));
        let j = choose|j: int|
            0 <= j < input.len() && first_with_port(input, j) && #[trigger] input[j] == res[a];
        assert(input[j].port == ports[j]);
    }
}

/// A result of sorting and dropping repeated ports is left as it is by a
/// second pass.
pub proof fn lemma_sort_dedup_idempotent(res: Seq<PortInfoView>, input: Seq<PortInfoView>)
    requires
        sorted_unique_of(res, input),
    ensures
        sorted_unique_of(res, res),
{
    assert forall|a: int| 0 <= a < res.len() implies is_first_entry(res, #[trigger] res[a]) by {
        assert forall|k: int| 0 <= k < a implies #[trigger] res[k].port != res[a].port by {}
        assert(first_with_port(res, a));
    }
    assert forall|j: int| 0 <= j < res.len() implies has_port(res, #[trigger] res[j].port) by {}
}

} // verus!

verus! {

/// Two strictly rising sequences with the same elements are equal.
proof fn lemma_rising_same_elements(s: Seq<u16>, t: Seq<u16>)
    requires
        forall|a: int, b: int| 0 <= a < b < s.len() ==> s[a] < s[b],
        forall|a: int, b: int| 0 <= a < b < t.len() ==> t[a] < t[b],
        forall|a: int| 0 <= a < s.len() ==> t.contains(#[trigger] s[a]),
        forall|b: int| 0 <= b < t.len() ==> s.contains(#[trigger] t[b]),
    ensures
        s == t,
    decreases s.len(),
{
    if s.len() == 0 {
        if t.len() > 0 {
            assert(s.contains(t[0]));
        }
        assert(s =~= t);
    } else {
        assert(t.contains(s[0]));
        let b0 = choose|b: int| 0 <= b < t.len() && t[b] == s[0];
        assert(s.contains(t[0]));
        let a0 = choose|a: int| 0 <= a < s.len() && s[a] == t[0];
        assert(s[0] == t[0]) by {
            if b0 > 0 {
                assert(t[0] < t[b0]);
            }
            if a0 > 0 {
                assert(s[0] < s[a0]);
            }
        }
        let s1 = s.drop_first();
        let t1 = t.drop_first();
        assert forall|a: int| 0 <= a < s1.len() implies t1.contains(#[trigger] s1[a]) by {
            assert(s[0] < s[a + 1]);
            assert(t.contains(s[a + 1]));
            let b = choose|b: int| 0 <= b < t.len() && t[b] == s[a + 1];
            assert(b != 0);
            assert(t1[b - 1] == s1[a]);
        }
        assert forall|b: int| 0 <= b < t1.len() implies s1.contains(#[trigger] t1[b]) by {
            assert(t[0] < t[b + 1]);
            assert(s.contains(t[b + 1]));
            let a = choose|a: int| 0 <= a < s.len() && s[a] == t[b + 1];
            assert(a != 0);
            assert(s1[a - 1] == t1[b]);
        }
        assert forall|a: int, b: int| 0 <= a < b < s1.len() implies s1[a] < s1[b] by {
            assert(s[a + 1] < s[b + 1]);
        }
        assert forall|a: int, b: int| 0 <= a < b < t1.len() implies t1[a] < t1[b] by {
            assert(t[a + 1] < t[b + 1]);
        }
        lemma_rising_same_elements(s1, t1);
        assert(s =~= seq![s[0]] + s1);
        assert(t =~= seq![t[0]] + t1);
    }
}

/// Sorting by port and dropping repeated ports has one outcome: two
/// results for the same entries are equal.
pub proof fn lemma_sort_dedup_unique(
    r1: Seq<PortInfoView>,
    r2: Seq<PortInfoView>,
    input: Seq<PortInfoView>,
)
    requires
        sorted_unique_of(r1, input),
        sorted_unique_of(r2, input),
    ensures
        r1 == r2,
{
    let p1 = r1.map_values(|v: PortInfoView| v.port);
    let p2 = r2.map_values(|v: PortInfoView| v.port);
    assert forall|a: int| 0 <= a < p1.len() implies p2.contains(#[trigger] p1[a]) by {
        assert(is_first_entry(input, r1[a]));
        let j = choose|j: int|
            0 <= j < input.len() && first_with_port(input, j) && #[trigger] input[j] == r1[a];
        assert(has_port(r2, input[j].port));
        let b = choose|b: int| 0 <= b < r2.len() && #[trigger] r2[b].port == input[j].port;
        assert(p2[b] == p1[a]);
    }
    assert forall|b: int| 0 <= b < p2.len() implies p1.contains(#[trigger] p2[b]) by {
        assert(is_first_entry(input, r2[b]));
        let j = choose|j: int|
            0 <= j < input.len() && first_with_port(input, j) && #[trigger] input[j] == r2[b];
        assert(has_port(r1, input[j].port));
        let a = choose|a: int| 0 <= a < r1.len() && #[trigger] r1[a].port == input[j].port;
        assert(p1[a] == p2[b]);
    }
    assert forall|a: int, b: int| 0 <= a < b < p1.len() implies p1[a] < p1[b] by {
        assert(r1[a].port < r1[b].port);
    }
    assert forall|a: int, b: int| 0 <= a < b < p2.len() implies p2[a] < p2[b] by {
        assert(r2[a].port < r2[b].port);
    }
    lemma_rising_same_elements(p1, p2);
    assert forall|a: int| 0 <= a < r1.len() implies r1[a] == r2[a] by {
        assert(p1[a] == p2[a]);
        assert(is_first_entry(input, r1[a]));
        let j1 = choose|j: int|
            0 <= j < input.len() && first_with_port(input, j) && #[trigger] input[j] == r1[a];
        assert(is_first_entry(input, r2[a]));
        let j2 = choose|j: int|
            0 <= j < input.len() && first_with_port(input, j) && #[trigger] input[j] == r2[a];
        if j1 < j2 {
            assert(input[j1].port != input[j2].port);
        } else if j2 < j1 {
            assert(input[j2].port != input[j1].port);
        }
    }
    assert(r1 =~= r2);
}

} // verus!

verus! {

/// The entry that a scan makes of port `p` when `lsof(p)` is what `lsof`
/// printed for it.
pub open spec fn probed_port(p: u16, lsof: spec_fn(u16) -> Option<Seq<char>>) -> PortInfoView {
    probed_entry(p, lsof(p))
}

/// The entries of `ports`, each probed with the output `lsof` gives for its
/// port.
pub open spec fn probed_with(ports: Seq<u16>, lsof: spec_fn(u16) -> Option<Seq<char>>) -> Seq<
    PortInfoView,
> {
    probed_entries(ports, ports.map_values(|p: u16| lsof(p)))
}

/// Raising the bound keeps exactly the ports of the lower bound's line that
/// reach the higher one.
proof fn lemma_listen_port_raise(cols: Seq<Seq<char>>, m1: u16, m2: u16)
    requires
        m1 <= m2,
    ensures
        netstat_listen_port(cols, m2) == (match netstat_listen_port(cols, m1) {
            Some(p) => if p >= m2 {
                Some(p)
            } else {
                None
            },
            None => None,
        }),
{
}

/// Raising `min_port` from `m1` to `m2` only drops the ports below `m2`
/// from what `netstat` output yields, keeping the order of the rest.
pub proof fn lemma_netstat_ports_raise(ls: Seq<Seq<char>>, m1: u16, m2: u16)
    requires
        m1 <= m2,
    ensures
        netstat_ports(ls, m2) == netstat_ports(ls, m1).filter(|p: u16| p >= m2),
    decreases ls.len(),
{
    if ls.len() == 0 {
        reveal(Seq::filter);
        assert(netstat_ports(ls, m1).filter(|p: u16| p >= m2) =~= Seq::<u16>::empty());
    } else {
        lemma_netstat_ports_raise(ls.drop_first(), m1, m2);
        lemma_listen_port_raise(words(ls[0]), m1, m2);
        let rest1 = netstat_ports(ls.drop_first(), m1);
        match netstat_listen_port(words(ls[0]), m1) {
            Some(p) => {
                rest1.lemma_filter_prepend(p, |p: u16| p >= m2);
                if p >= m2 {
                    assert(netstat_ports(ls, m2) =~= seq![p] + netstat_ports(ls.drop_first(), m2));
                } else {
                    assert(netstat_ports(ls, m1).filter(|p: u16| p >= m2) =~= Seq::<u16>::empty()
                        + rest1.filter(|p: u16| p >= m2));
                }
            },
            None => {},
        }
    }
}

/// A sequence whose ports rise strictly still does so once filtered.
proof fn lemma_filter_rising(s: Seq<PortInfoView>, pred: spec_fn(PortInfoView) -> bool)
    requires
        forall|a: int, b: int| 0 <= a < b < s.len() ==> s[a].port < s[b].port,
    ensures
        forall|a: int, b: int|
            0 <= a < b < s.filter(pred).len() ==> s.filter(pred)[a].port < s.filter(pred)[b].port,
    decreases s.len(),
{
    reveal(Seq::filter);
    if s.len() > 0 {
        let t = s.drop_last();
        lemma_filter_rising(t, pred);
        let ft = t.filter(pred);
        if pred(s.last()) {
            let f = s.filter(pred);
            assert(f == ft.push(s.last()));
            assert forall|a: int, b: int| 0 <= a < b < f.len() implies f[a].port < f[b].port by {
                if b == f.len() - 1 {
                    assert(ft.contains(ft[a]));
                    t.lemma_filter_contains_rev(pred, ft[a]);
                    let i = choose|i: int| 0 <= i < t.len() && t[i] == ft[a];
                    assert(s[i] == t[i]);
                    assert(s[i].port < s[s.len() - 1].port);
                } else {
                    assert(f[a] == ft[a]);
                    assert(f[b] == ft[b]);
                }
            }
        }
    }
}

/// What `sorted_unique_of` says of a scan whose entries are a function of
/// their port: each entry is the probed entry of a port of `ports`, and each
/// port of `ports` has an entry.
proof fn lemma_scan_by_port(
    res: Seq<PortInfoView>,
    ports: Seq<u16>,
    lsof: spec_fn(u16) -> Option<Seq<char>>,
)
    requires
        sorted_unique_of(res, probed_with(ports, lsof)),
    ensures
        forall|a: int|
            0 <= a < res.len() ==> #[trigger] res[a] == probed_port(res[a].port, lsof)
                && ports.contains(res[a].port),
        forall|k: int| 0 <= k < ports.len() ==> has_port(res, #[trigger] ports[k]),
{
    let input = probed_with(ports, lsof);
    assert forall|a: int| 0 <= a < res.len() implies #[trigger] res[a] == probed_port(
        res[a].port,
        lsof,
    ) && ports.contains(res[a].port) by {
        assert(is_first_entry(input, res[a]));
        let j = choose|j: int|
            0 <= j < input.len() && first_with_port(input, j) && #[trigger] input[j] == res[a];
        assert(ports[j] == res[a].port);
    }
    assert forall|k: int| 0 <= k < ports.len() implies has_port(res, #[trigger] ports[k]) by {
        assert(input[k].port == ports[k]);
        assert(has_port(res, input[k].port));
    }
}

/// The converse: a strictly rising list of the probed entries of exactly
/// the ports of `ports` is the scan of `ports`.
proof fn lemma_scan_from_ports(
    res: Seq<PortInfoView>,
    ports: Seq<u16>,
    lsof: spec_fn(u16) -> Option<Seq<char>>,
)
    requires
        forall|a: int, b: int| 0 <= a < b < res.len() ==> res[a].port < res[b].port,
        forall|a: int|
            0 <= a < res.len() ==> #[trigger] res[a] == probed_port(res[a].port, lsof)
                && ports.contains(res[a].port),
        forall|k: int| 0 <= k < ports.len() ==> has_port(res, #[trigger] ports[k]),
    ensures
        sorted_unique_of(res, probed_with(ports, lsof)),
{
    let input = probed_with(ports, lsof);
    assert forall|a: int| 0 <= a < res.len() implies is_first_entry(input, #[trigger] res[a]) by {
        let p = res[a].port;
        ports.index_of_first_ensures(p);
        let j = ports.index_of_first(p).unwrap();
        assert(input[j] == res[a]);
        assert forall|k: int| 0 <= k < j implies #[trigger] input[k].port != input[j].port by {
            assert(input[k].port == ports[k]);
        }
        assert(first_with_port(input, j));
    }
    assert forall|j: int| 0 <= j < input.len() implies has_port(res, #[trigger] input[j].port) by {
        assert(input[j].port == ports[j]);
        assert(has_port(res, ports[j]));
    }
}

/// Raising `min_port` from `m1` to `m2` only drops the entries below `m2`
/// from a scan, keeping the order and contents of the rest: `r1` and `r2`
/// are what `build_scan` returns for the ports that `listening_ports` finds
/// in the same `netstat` output at the two bounds, with the same `lsof`
/// output for each port.
pub proof fn lemma_scan_raise_min_port(
    netstat_output: Seq<char>,
    m1: u16,
    m2: u16,
    lsof: spec_fn(u16) -> Option<Seq<char>>,
    r1: Seq<PortInfoView>,
    r2: Seq<PortInfoView>,
)
    requires
        m1 <= m2,
        sorted_unique_of(r1, probed_with(netstat_ports(lines(netstat_output), m1), lsof)),
        sorted_unique_of(r2, probed_with(netstat_ports(lines(netstat_output), m2), lsof)),
    ensures
        r2 == r1.filter(|v: PortInfoView| v.port >= m2),
{
    let ls = lines(netstat_output);
    let p1 = netstat_ports(ls, m1);
    let p2 = netstat_ports(ls, m2);
    let q = |p: u16| p >= m2;
    let pred = |v: PortInfoView| v.port >= m2;
    let f = r1.filter(pred);
    lemma_netstat_ports_raise(ls, m1, m2);
    assert(p2 == p1.filter(q));
    lemma_scan_by_port(r1, p1, lsof);
    lemma_filter_rising(r1, pred);
    assert forall|a: int| 0 <= a < f.len() implies #[trigger] f[a] == probed_port(f[a].port, lsof)
        && p2.contains(f[a].port) by {
        r1.lemma_filter_pred(pred, a);
        assert(f.contains(f[a]));
        r1.lemma_filter_contains_rev(pred, f[a]);
        let i = choose|i: int| 0 <= i < r1.len() && r1[i] == f[a];
        assert(r1[i] == probed_port(r1[i].port, lsof) && p1.contains(r1[i].port));
        let k = choose|k: int| 0 <= k < p1.len() && p1[k] == r1[i].port;
        p1.lemma_filter_contains(q, k);
    }
    assert forall|k: int| 0 <= k < p2.len() implies has_port(f, #[trigger] p2[k]) by {
        p1.lemma_filter_pred(q, k);
        assert(p2.contains(p2[k]));
        p1.lemma_filter_contains_rev(q, p2[k]);
        let i = choose|i: int| 0 <= i < p1.len() && p1[i] == p2[k];
        assert(has_port(r1, p1[i]));
        let a = choose|a: int| 0 <= a < r1.len() && #[trigger] r1[a].port == p1[i];
        r1.lemma_filter_contains(pred, a);
        let b = choose|b: int| 0 <= b < f.len() && f[b] == r1[a];
        assert(f[b].port == p2[k]);
    }
    lemma_scan_from_ports(f, p2, lsof);
    lemma_sort_dedup_unique(r2, f, probed_with(p2, lsof));
}

} // verus!

verus! {

/// The part after the last `.` of a text that ends in `.` and then `d`,
/// where `d` holds no `.`, is `d`.
proof fn lemma_after_last_dot_of(a: Seq<char>, d: Seq<char>)
    requires
        forall|k: int| 0 <= k < d.len() ==> #[trigger] d[k] != '.',
    ensures
        after_last_dot(a.push('.') + d) == d,
    decreases d.len(),
{
    let s = a.push('.') + d;
    if d.len() == 0 {
        assert(s =~= a.push('.'));
        assert(s.last() == '.');
    } else {
        let t = d.drop_last();
        assert forall|k: int| 0 <= k < t.len() implies #[trigger] t[k] != '.' by {
            assert(t[k] == d[k]);
        }
        lemma_after_last_dot_of(a, t);
        assert(s.drop_last() =~= a.push('.') + t);
        assert(s.last() == d.last());
        assert(t.push(d.last()) =~= d);
    }
}

/// The `netstat` line of a listening TCP socket on port digits `d`.
pub open spec fn listen_line(d: Seq<char>) -> Seq<char> {
    seq!['t', 'c', 'p', '4', ' ', '0', ' ', '0', ' ', '*', '.'] + d + seq![
        ' ',
        '*',
        '.',
        '*',
        ' ',
        'L',
        'I',
        'S',
        'T',
        'E',
        'N',
    ]
}

/// The words of that line.
pub open spec fn listen_fields(d: Seq<char>) -> Seq<Seq<char>> {
    seq![
        seq!['t', 'c', 'p', '4'],
        seq!['0'],
        seq!['0'],
        seq!['*', '.'] + d,
        seq!['*', '.', '*'],
        seq!['L', 'I', 'S', 'T', 'E', 'N'],
    ]
}

proof fn lemma_listen_line_words(d: Seq<char>)
    requires
        d.len() > 0,
        crate::number::all_digits(d),
    ensures
        words(listen_line(d)) == listen_fields(d),
        lines(listen_line(d)) == seq![listen_line(d)],
{
    let fields = listen_fields(d);
    let line = listen_line(d);
    let addr = seq!['*', '.'] + d;
    assert forall|k: int| 0 <= k < d.len() implies !is_white_space(#[trigger] d[k]) by {
        assert(crate::number::is_digit(d[k]));
    }
    assert forall|k: int| 0 <= k < addr.len() implies !is_white_space(#[trigger] addr[k]) by {
        if k >= 2 {
            assert(addr[k] == d[k - 2]);
        }
    }
    assert forall|f: int| 0 <= f < fields.len() implies is_word(#[trigger] fields[f]) by {
        if f == 3 {
            assert(fields[f] == addr);
        }
    }
    reveal_with_fuel(crate::text::joined, 7);
    assert(crate::text::joined(fields) =~= line);
    crate::text::lemma_words_of_joined(fields);
    assert forall|k: int| 0 <= k < line.len() implies #[trigger] line[k] != '\n' by {
        if 11 <= k < 11 + d.len() {
            assert(line[k] == d[k - 11]);
            assert(crate::number::is_digit(d[k - 11]));
        }
    }
    crate::text::lemma_last_line(line, 0);
    assert(line.subrange(0, line.len() as int) =~= line);
}

proof fn lemma_listen_fields_port(p: u16, min_port: u16)
    requires
        p >= min_port,
    ensures
        netstat_listen_port(listen_fields(decimal_digits(p as nat)), min_port) == Some(p),
{
    let d = decimal_digits(p as nat);
    crate::number::lemma_decimal_digits(p as nat);
    crate::number::lemma_decimal_round_trip(p as nat, u16::MAX as nat);
    let fields = listen_fields(d);
    assert forall|k: int| 0 <= k < d.len() implies #[trigger] d[k] != '.' by {
        assert(crate::number::is_digit(d[k]));
    }
    assert(fields[3] =~= seq!['*'].push('.') + d);
    lemma_after_last_dot_of(seq!['*'], d);
    assert(fields[0].take(3) =~= seq!['t', 'c', 'p']);
}

/// A `netstat` line of a TCP socket in state `LISTEN` whose local address
/// ends in `.p`, for any port `p` at or above the bound, yields exactly `p`.
pub proof fn lemma_listen_line_yields_port(p: u16, min_port: u16)
    requires
        p >= min_port,
    ensures
        netstat_ports(
            lines(seq!['t', 'c', 'p', '4', ' ', '0', ' ', '0', ' ', '*', '.'] + decimal_digits(
                p as nat,
            ) + seq![' ', '*', '.', '*', ' ', 'L', 'I', 'S', 'T', 'E', 'N']),
            min_port,
        ) == seq![p],
{
    let d = decimal_digits(p as nat);
    crate::number::lemma_decimal_digits(p as nat);
    let line = listen_line(d);
    lemma_listen_line_words(d);
    lemma_listen_fields_port(p, min_port);
    let one = seq![line];
    assert(one.drop_first() =~= Seq::<Seq<char>>::empty());
    assert(one[0] == line);
    assert(netstat_listen_port(words(one[0]), min_port) == Some(p));
    assert(netstat_ports(one.drop_first(), min_port) =~= Seq::<u16>::empty());
    assert(netstat_ports(one, min_port) =~= seq![p]);
}

/// Below any header line, a line holding a command name and the decimal
/// digits of any `u32` process id gives the entry exactly that name and id.
pub proof fn lemma_lsof_gives_name_and_pid(
    info: PortInfoView,
    header: Seq<char>,
    name: Seq<char>,
    n: u32,
)
    requires
        forall|k: int| 0 <= k < header.len() ==> #[trigger] header[k] != '\n',
        is_word(name),
    ensures
        enriched(info, header + seq!['\n'] + name + seq![' '] + decimal_digits(n as nat))
            == (PortInfoView {
            port: info.port,
            protocol: info.protocol,
            pid: Some(n),
            process_name: Some(name),
        }),
{
    let d = decimal_digits(n as nat);
    crate::number::lemma_decimal_digits(n as nat);
    crate::number::lemma_decimal_round_trip(n as nat, u32::MAX as nat);
    let l = name + seq![' '] + d;
    let s = header + seq!['\n'] + l;
    let h = header.len() as int;
    assert(s =~= header + seq!['\n'] + name + seq![' '] + d);
    assert forall|k: int| 0 <= k < d.len() implies !is_white_space(#[trigger] d[k]) by {
        assert(crate::number::is_digit(d[k]));
    }
    assert forall|k: int| 0 <= k < h implies #[trigger] s[k] != '\n' by {
        assert(s[k] == header[k]);
    }
    assert(s[h] == '\n');
    crate::text::lemma_line_end_at(s, 0, h);
    assert forall|k: int| h + 1 <= k < s.len() implies #[trigger] s[k] != '\n' by {
        assert(s[k] == l[k - h - 1]);
        if k - h - 1 < name.len() {
            assert(l[k - h - 1] == name[k - h - 1]);
        } else if k - h - 1 > name.len() {
            assert(l[k - h - 1] == d[k - h - 2 - name.len()]);
        }
    }
    crate::text::lemma_last_line(s, h + 1);
    assert(s.subrange(h + 1, s.len() as int) =~= l);
    let ls = lines(s);
    assert(ls == seq![crate::text::line_text(s, 0, h)] + seq![l]);
    assert(ls[1] == l);
    let fields = seq![name, d];
    assert forall|f: int| 0 <= f < fields.len() implies is_word(#[trigger] fields[f]) by {
    }
    reveal_with_fuel(crate::text::joined, 3);
    assert(crate::text::joined(fields) =~= l);
    crate::text::lemma_words_of_joined(fields);
    assert(words(l) == fields);
    assert(lsof_owner(s) == Some((name, Some(n))));
}

} // verus!

verus! {

/// The word of a local address: a host part without whitespace, a `.`, and
/// the decimal digits of the port.
pub open spec fn local_address(host: Seq<char>, port: u16) -> Seq<char> {
    host + seq!['.'] + decimal_digits(port as nat)
}

/// A `netstat` line of six words reports its port exactly when its first
/// word starts with `tcp`, its sixth is `LISTEN` and the port, the digits
/// after the last `.` of the fourth word, is at or above the bound; the
/// other words do not matter.
pub proof fn lemma_netstat_line(
    proto: Seq<char>,
    recv_q: Seq<char>,
    send_q: Seq<char>,
    host: Seq<char>,
    port: u16,
    foreign: Seq<char>,
    state: Seq<char>,
    min_port: u16,
)
    requires
        is_word(proto),
        is_word(recv_q),
        is_word(send_q),
        forall|k: int| 0 <= k < host.len() ==> !is_white_space(#[trigger] host[k]),
        is_word(foreign),
        is_word(state),
    ensures
        netstat_ports(
            lines(
                crate::text::joined(
                    seq![proto, recv_q, send_q, local_address(host, port), foreign, state],
                ),
            ),
            min_port,
        ) == if proto.len() >= 3 && proto.take(3) == seq!['t', 'c', 'p'] && state == seq![
            'L',
            'I',
            'S',
            'T',
            'E',
            'N',
        ] && port >= min_port {
            seq![port]
        } else {
            Seq::<u16>::empty()
        },
{
    let d = decimal_digits(port as nat);
    crate::number::lemma_decimal_digits(port as nat);
    crate::number::lemma_decimal_round_trip(port as nat, u16::MAX as nat);
    let addr = local_address(host, port);
    assert forall|k: int| 0 <= k < d.len() implies #[trigger] d[k] != '.' && !is_white_space(d[k]) by {
        assert(crate::number::is_digit(d[k]));
    }
    assert forall|k: int| 0 <= k < addr.len() implies !is_white_space(#[trigger] addr[k]) by {
        if k < host.len() {
            assert(addr[k] == host[k]);
        } else if k > host.len() {
            assert(addr[k] == d[k - host.len() - 1]);
        }
    }
    let fields = seq![proto, recv_q, send_q, addr, foreign, state];
    assert forall|f: int| 0 <= f < fields.len() implies is_word(#[trigger] fields[f]) by {}
    crate::text::lemma_words_of_joined(fields);
    crate::text::lemma_joined_chars(fields);
    let line = crate::text::joined(fields);
    assert forall|k: int| 0 <= k < line.len() implies #[trigger] line[k] != '\n' by {
        assert(line[k] == ' ' || !is_white_space(line[k]));
    }
    crate::text::lemma_last_line(line, 0);
    assert(line.subrange(0, line.len() as int) =~= line);
    assert(host + seq!['.'] =~= host.push('.'));
    lemma_after_last_dot_of(host, d);
    assert(after_last_dot(fields[3]) == d);
    let one = seq![line];
    assert(one.drop_first() =~= Seq::<Seq<char>>::empty());
    assert(one[0] == line);
    assert(netstat_ports(one.drop_first(), min_port) =~= Seq::<u16>::empty());
    match netstat_listen_port(words(line), min_port) {
        Some(p) => {
            assert(netstat_ports(one, min_port) =~= seq![p]);
        },
        None => {
            assert(netstat_ports(one, min_port) =~= Seq::<u16>::empty());
        },
    }
}

/// Below any header line, the first line holds a command name, the decimal
/// digits of any `u32` process id and any further words; whatever follows
/// that line, the entry gets exactly that name and id.
pub proof fn lemma_lsof_first_line_wins(
    info: PortInfoView,
    header: Seq<char>,
    name: Seq<char>,
    pid: u32,
    others: Seq<Seq<char>>,
    rest: Seq<char>,
)
    requires
        forall|k: int| 0 <= k < header.len() ==> #[trigger] header[k] != '\n',
        is_word(name),
        forall|f: int| 0 <= f < others.len() ==> is_word(#[trigger] others[f]),
    ensures
        enriched(
            info,
            header + seq!['\n'] + crate::text::joined(
                seq![name, decimal_digits(pid as nat)] + others,
            ) + seq!['\n'] + rest,
        ) == (PortInfoView {
            port: info.port,
            protocol: info.protocol,
            pid: Some(pid),
            process_name: Some(name),
        }),
{
    let d = decimal_digits(pid as nat);
    crate::number::lemma_decimal_digits(pid as nat);
    crate::number::lemma_decimal_round_trip(pid as nat, u32::MAX as nat);
    assert forall|k: int| 0 <= k < d.len() implies !is_white_space(#[trigger] d[k]) by {
        assert(crate::number::is_digit(d[k]));
    }
    let fields = seq![name, d] + others;
    assert forall|f: int| 0 <= f < fields.len() implies is_word(#[trigger] fields[f]) by {
        if f >= 2 {
            assert(fields[f] == others[f - 2]);
        }
    }
    crate::text::lemma_words_of_joined(fields);
    crate::text::lemma_joined_chars(fields);
    let l = crate::text::joined(fields);
    let s = header + seq!['\n'] + l + seq!['\n'] + rest;
    let h = header.len() as int;
    let e = h + 1 + l.len();
    assert forall|k: int| 0 <= k < h implies #[trigger] s[k] != '\n' by {
        assert(s[k] == header[k]);
    }
    assert(s[h] == '\n');
    crate::text::lemma_line_end(s, 0);
    crate::text::lemma_line_end_at(s, 0, h);
    assert forall|k: int| h + 1 <= k < e implies #[trigger] s[k] != '\n' by {
        assert(s[k] == l[k - h - 1]);
        assert(l[k - h - 1] == ' ' || !is_white_space(l[k - h - 1]));
    }
    assert(s[e] == '\n');
    crate::text::lemma_line_end_at(s, h + 1, e);
    assert(s[e - 1] == l.last());
    assert(crate::text::line_text(s, h + 1, e) =~= l);
    let ls = lines(s);
    assert(ls == seq![crate::text::line_text(s, 0, h)] + crate::text::lines_from(s, h + 1));
    assert(crate::text::lines_from(s, h + 1) == seq![l] + crate::text::lines_from(s, e + 1));
    assert(ls[1] == l);
    assert(words(l) == fields);
    assert(fields[0] == name && fields[1] == d);
    assert(lsof_owner(s) == Some((name, Some(pid))));
}

} // verus!
