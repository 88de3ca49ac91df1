//! The text of the port table, as the plain listing and the terminal view
//! show it.
use vstd::prelude::*;

use crate::number::{
    decimal, decimal_digits, lemma_decimal_round_trip, parse_u16_value, parse_u32_value,
};
use crate::scanner::PortInfo;

verus! {

/// The four cells of one row of the port table.
pub struct TableRow {
    pub port: String,
    pub protocol: String,
    pub pid: String,
    pub process: String,
}

/// What the PID column shows: the process id, or `-` where it is not known.
pub open spec fn pid_text(pid: Option<u32>) -> Seq<char> {
    match pid {
        Some(id) => decimal_digits(id as nat),
        None => "-"@,
    }
}

/// What the PROCESS column shows: the command name, or `unknown` where it is
/// not known.
pub open spec fn process_text(name: Option<Seq<char>>) -> Seq<char> {
    match name {
        Some(n) => n,
        None => "unknown"@,
    }
}

/// The cells of the row of `p`: its port in decimal, its protocol, its
/// process id or `-`, and its command name or `unknown`.
pub fn table_row(p: &PortInfo) -> (row: TableRow)
    ensures
        row.port@ == decimal_digits(p.port as nat),
        row.protocol@ == p.protocol@,
        row.pid@ == pid_text(p.pid),
        row.process@ == process_text(p@.process_name),
{
    let port = decimal(p.port as u64);
    let pid = match p.pid {
        Some(id) => decimal(id as u64),
        None => String::from_str("-"),
    };
    let process = match &p.process_name {
        Some(name) => name.clone(),
        None => String::from_str("unknown"),
    };
    TableRow { port, protocol: p.protocol.clone(), pid, process }
}

/// The rule that frames the plain table: sixty `-` characters.
pub fn separator_line() -> (s: String)
    ensures
        s@ == Seq::new(60, |i: int| '-'),
{
    let mut s = String::new();
    let mut k: usize = 0;
    while k < 60
        invariant
            k <= 60,
            s@ == Seq::new(k as nat, |i: int| '-'),
        decreases 60 - k,
    {
        crate::number::push_char(&mut s, '-');
        proof {
            assert(s@ =~= Seq::new((k + 1) as nat, |i: int| '-'));
        }
        k = k + 1;
    }
    s
}

/// The line under the plain table: the number of ports, then
/// ` ports(s) found`.
pub fn ports_found_line(count: usize) -> (s: String)
    ensures
        s@ == decimal_digits(count as nat) + " ports(s) found"@,
{
    let mut s = decimal(count as u64);
    s.append(" ports(s) found");
    s
}

} // verus!

verus! {

/// `s` padded on the right with spaces to `width` characters, as the
/// format width `{:<width}` pads it; longer text is left as it is.
pub open spec fn padded(s: Seq<char>, width: nat) -> Seq<char> {
    if s.len() < width {
        s + Seq::new((width - s.len()) as nat, |i: int| ' ')
    } else {
        s
    }
}

/// Pads `s` on the right with spaces to `width` characters.
pub fn pad_right(s: String, width: usize) -> (r: String)
    ensures
        r@ == padded(s@, width as nat),
{
    let len = s.as_str().unicode_len();
    let mut r = s;
    let ghost base = r@;
    let mut k: usize = len;
    while k < width
        invariant
            len == base.len(),
            len <= k,
            k == len || k <= width,
            r@ == base + Seq::new((k - len) as nat, |i: int| ' '),
        decreases width - k,
    {
        crate::number::push_char(&mut r, ' ');
        proof {
            assert(r@ =~= base + Seq::new((k + 1 - len) as nat, |i: int| ' '));
        }
        k = k + 1;
    }
    proof {
        if len < width {
            assert(r@ =~= padded(base, width as nat));
        } else {
            assert(r@ =~= base);
        }
    }
    r
}

/// The row as the plain table prints it: the port and protocol padded to
/// eight characters, the process id to ten, the command name as it is.
pub fn padded_row(row: TableRow) -> (r: TableRow)
    ensures
        r.port@ == padded(row.port@, 8),
        r.protocol@ == padded(row.protocol@, 8),
        r.pid@ == padded(row.pid@, 10),
        r.process@ == row.process@,
{
    TableRow {
        port: pad_right(row.port, 8),
        protocol: pad_right(row.protocol, 8),
        pid: pad_right(row.pid, 10),
        process: row.process,
    }
}

/// The heading of the plain table, padded as its rows are.
pub fn header_row() -> (r: TableRow)
    ensures
        r.port@ == padded("PORT"@, 8),
        r.protocol@ == padded("PROTO"@, 8),
        r.pid@ == padded("PID"@, 10),
        r.process@ == "PROCESS"@,
{
    padded_row(
        TableRow {
            port: String::from_str("PORT"),
            protocol: String::from_str("PROTO"),
            pid: String::from_str("PID"),
            process: String::from_str("PROCESS"),
        },
    )
}

} // verus!

verus! {

/// The cells of a row say what the entry holds: the port and process id
/// cells read back as the port and the id, a missing id shows as `-`, and
/// the process cell is the whole command name, or `unknown` without one.
pub proof fn lemma_row_cells_read_back(port: u16, pid: Option<u32>, name: Option<Seq<char>>)
    ensures
        parse_u16_value(decimal_digits(port as nat)) == Some(port),
        pid matches Some(id) ==> parse_u32_value(pid_text(pid)) == Some(id),
        pid is None ==> pid_text(pid) == "-"@,
        name matches Some(n) ==> process_text(name) == n,
        name is None ==> process_text(name) == "unknown"@,
{
    lemma_decimal_round_trip(port as nat, u16::MAX as nat);
    if let Some(id) = pid {
        lemma_decimal_round_trip(id as nat, u32::MAX as nat);
    }
}

/// Padding keeps the text in front, adds only spaces, and reaches the
/// width exactly where the text is shorter.
pub proof fn lemma_padded(s: Seq<char>, width: nat)
    ensures
        padded(s, width).len() == if s.len() < width {
            width
        } else {
            s.len()
        },
        padded(s, width).take(s.len() as int) == s,
        forall|k: int| s.len() <= k < padded(s, width).len() ==> #[trigger] padded(s, width)[k] == ' ',
{
    assert(padded(s, width).take(s.len() as int) =~= s);
}

} // verus!
