//! Characters, lines and whitespace-separated words of program output.
use vstd::prelude::*;

verus! {

/// Whether `c` has the Unicode `White_Space` property, which is what
/// `char::is_whitespace` tests.
pub open spec fn is_white_space(c: char) -> bool {
    let n = c as u32;
    ||| 0x09 <= n <= 0x0d
    ||| n == 0x20
    ||| n == 0x85
    ||| n == 0xa0
    ||| n == 0x1680
    ||| 0x2000 <= n <= 0x200a
    ||| n == 0x2028
    ||| n == 0x2029
    ||| n == 0x202f
    ||| n == 0x205f
    ||| n == 0x3000
}

/// Tests a character for the Unicode `White_Space` property.
pub fn white_space(c: char) -> (b: bool)
    ensures
        b == is_white_space(c),
{
    let n = c as u32;
    (0x09 <= n && n <= 0x0d) || n == 0x20 || n == 0x85 || n == 0xa0 || n == 0x1680 || (0x2000
        <= n && n <= 0x200a) || n == 0x2028 || n == 0x2029 || n == 0x202f || n == 0x205f || n
        == 0x3000
}

} // verus!

verus! {

/// The index just past the run of non-whitespace characters of `s` that
/// starts at `i`.
pub open spec fn word_end(s: Seq<char>, i: int) -> int
    decreases s.len() - i,
{
    if 0 <= i < s.len() && !is_white_space(s[i]) {
        word_end(s, i + 1)
    } else {
        i
    }
}

pub proof fn lemma_word_end(s: Seq<char>, i: int)
    requires
        0 <= i <= s.len(),
    ensures
        i <= word_end(s, i) <= s.len(),
        forall|k: int| i <= k < word_end(s, i) ==> !is_white_space(#[trigger] s[k]),
        word_end(s, i) < s.len() ==> is_white_space(s[word_end(s, i)]),
    decreases s.len() - i,
{
    if i < s.len() && !is_white_space(s[i]) {
        lemma_word_end(s, i + 1);
    }
}

/// The words of `s` from index `i` on: the maximal runs of characters
/// without the `White_Space` property, in order.
pub open spec fn words_from(s: Seq<char>, i: int) -> Seq<Seq<char>>
    decreases s.len() - i,
{
    if i < 0 || i >= s.len() {
        Seq::empty()
    } else if is_white_space(s[i]) {
        words_from(s, i + 1)
    } else {
        let j = word_end(s, i + 1);
        proof {
            lemma_word_end(s, i + 1);
        }
        seq![s.subrange(i, j)] + words_from(s, j)
    }
}

/// The words of `s`, as `str::split_whitespace` yields them.
pub open spec fn words(s: Seq<char>) -> Seq<Seq<char>> {
    words_from(s, 0)
}

/// The contents of a sequence of character vectors.
pub open spec fn views(v: Seq<Vec<char>>) -> Seq<Seq<char>> {
    v.map_values(|w: Vec<char>| w@)
}

/// Copies `s[from..to]` into a vector of its own.
pub fn copy_range(s: &[char], from: usize, to: usize) -> (v: Vec<char>)
    requires
        from <= to <= s@.len(),
    ensures
        v@ == s@.subrange(from as int, to as int),
{
    let mut v: Vec<char> = Vec::new();
    let mut k: usize = from;
    while k < to
        invariant
            from <= k <= to <= s@.len(),
            v@ == s@.subrange(from as int, k as int),
        decreases to - k,
    {
        v.push(s[k]);
        k = k + 1;
    }
    v
}

/// Splits `s` into its words, as `str::split_whitespace` does.
pub fn split_words(s: &[char]) -> (ws: Vec<Vec<char>>)
    ensures
        views(ws@) == words(s@),
{
    let n = s.len();
    let mut ws: Vec<Vec<char>> = Vec::new();
    let mut i: usize = 0;
    while i < n
        invariant
            n == s@.len(),
            i <= n,
            views(ws@) + words_from(s@, i as int) == words(s@),
        decreases n - i,
    {
        if white_space(s[i]) {
            i = i + 1;
        } else {
            let mut j: usize = i + 1;
            while j < n && !white_space(s[j])
                invariant
                    n == s@.len(),
                    i < j <= n,
                    word_end(s@, i + 1) == word_end(s@, j as int),
                decreases n - j,
            {
                j = j + 1;
            }
            let w = copy_range(s, i, j);
            let ghost before = views(ws@);
            ws.push(w);
            proof {
                assert(word_end(s@, j as int) == j);
                assert(views(ws@) =~= before.push(s@.subrange(i as int, j as int)));
                assert(views(ws@) + words_from(s@, j as int) =~= before + (seq![
                    s@.subrange(i as int, j as int),
                ] + words_from(s@, j as int)));
            }
            i = j;
        }
    }
    proof {
        assert(views(ws@) + words_from(s@, n as int) =~= views(ws@));
    }
    ws
}

} // verus!

verus! {

/// The index of the first line feed of `s` at or after `i`, or the length of
/// `s` where there is none.
pub open spec fn line_end(s: Seq<char>, i: int) -> int
    decreases s.len() - i,
{
    if 0 <= i < s.len() && s[i] != '\n' {
        line_end(s, i + 1)
    } else {
        i
    }
}

pub proof fn lemma_line_end(s: Seq<char>, i: int)
    requires
        0 <= i <= s.len(),
    ensures
        i <= line_end(s, i) <= s.len(),
        forall|k: int| i <= k < line_end(s, i) ==> #[trigger] s[k] != '\n',
        line_end(s, i) < s.len() ==> s[line_end(s, i)] == '\n',
    decreases s.len() - i,
{
    if i < s.len() && s[i] != '\n' {
        lemma_line_end(s, i + 1);
    }
}

/// The text of the line `s[i..j]`: a line that a line feed ends loses a
/// carriage return just before that line feed.
pub open spec fn line_text(s: Seq<char>, i: int, j: int) -> Seq<char> {
    if j < s.len() && i < j && s[j - 1] == '\r' {
        s.subrange(i, j - 1)
    } else {
        s.subrange(i, j)
    }
}

/// The lines of `s` from index `i` on.
pub open spec fn lines_from(s: Seq<char>, i: int) -> Seq<Seq<char>>
    decreases s.len() + 1 - i,
{
    if i < 0 || i >= s.len() {
        Seq::empty()
    } else {
        let j = line_end(s, i);
        proof {
            lemma_line_end(s, i);
        }
        seq![line_text(s, i, j)] + lines_from(s, j + 1)
    }
}

/// The lines of `s`, as `str::lines` yields them: split at each line feed,
/// a carriage return before it dropped, with no line after a final line feed.
pub open spec fn lines(s: Seq<char>) -> Seq<Seq<char>> {
    lines_from(s, 0)
}

/// Splits `s` into its lines, as `str::lines` does.
pub fn split_lines(s: &[char]) -> (ls: Vec<Vec<char>>)
    ensures
        views(ls@) == lines(s@),
{
    let n = s.len();
    let mut ls: Vec<Vec<char>> = Vec::new();
    let mut i: usize = 0;
    while i < n
        invariant
            n == s@.len(),
            i <= n,
            views(ls@) + lines_from(s@, i as int) == lines(s@),
        decreases n - i,
    {
        let mut j: usize = i;
        while j < n && s[j] != '\n'
            invariant
                n == s@.len(),
                i <= j <= n,
                line_end(s@, i as int) == line_end(s@, j as int),
            decreases n - j,
        {
            j = j + 1;
        }
        let stop = if j < n && i < j && s[j - 1] == '\r' {
            j - 1
        } else {
            j
        };
        let w = copy_range(s, i, stop);
        let ghost before = views(ls@);
        ls.push(w);
        proof {
            assert(line_end(s@, j as int) == j);
            assert(views(ls@) =~= before.push(line_text(s@, i as int, j as int)));
            assert(views(ls@) + lines_from(s@, j + 1) =~= before + (seq![
                line_text(s@, i as int, j as int),
            ] + lines_from(s@, j + 1)));
        }
        i = if j < n {
            j + 1
        } else {
            n
        };
    }
    proof {
        assert(views(ls@) + lines_from(s@, i as int) =~= views(ls@));
    }
    ls
}

} // verus!

verus! {

/// The part of `s` after its last `.`, or all of `s` where it has none: the
/// first item that `str::rsplit('.')` yields.
pub open spec fn after_last_dot(s: Seq<char>) -> Seq<char>
    decreases s.len(),
{
    if s.len() == 0 {
        s
    } else if s.last() == '.' {
        Seq::empty()
    } else {
        after_last_dot(s.drop_last()).push(s.last())
    }
}

/// The index at which the part of `s` after its last `.` starts.
pub fn after_last_dot_start(s: &[char]) -> (i: usize)
    ensures
        i <= s@.len(),
        s@.subrange(i as int, s@.len() as int) == after_last_dot(s@),
{
    let n = s.len();
    let mut i: usize = n;
    proof {
        assert(s@.take(n as int) =~= s@);
        assert(after_last_dot(s@) =~= after_last_dot(s@.take(n as int)) + s@.subrange(
            n as int,
            n as int,
        ));
    }
    while i > 0 && s[i - 1] != '.'
        invariant
            n == s@.len(),
            i <= n,
            after_last_dot(s@) == after_last_dot(s@.take(i as int)) + s@.subrange(
                i as int,
                n as int,
            ),
        decreases i,
    {
        proof {
            let t = s@.take(i as int);
            assert(t.drop_last() =~= s@.take(i - 1));
            assert(after_last_dot(t) == after_last_dot(s@.take(i - 1)).push(s@[i - 1]));
            assert(after_last_dot(s@.take(i - 1)).push(s@[i - 1]) + s@.subrange(i as int, n as int)
                =~= after_last_dot(s@.take(i - 1)) + s@.subrange(i - 1, n as int));
        }
        i = i - 1;
    }
    proof {
        if i == 0 {
            assert(s@.take(0) =~= Seq::<char>::empty());
        } else {
            assert(s@.take(i as int).last() == '.');
        }
        assert(after_last_dot(s@) =~= s@.subrange(i as int, n as int));
    }
    i
}

/// A string that holds the characters `v`.
pub fn string_from_chars(v: &[char]) -> (s: String)
    ensures
        s@ == v@,
{
    let mut s = String::new();
    let mut k: usize = 0;
    while k < v.len()
        invariant
            k <= v@.len(),
            s@ == v@.take(k as int),
        decreases v@.len() - k,
    {
        crate::number::push_char(&mut s, v[k]);
        proof {
            assert(v@.take(k + 1) =~= v@.take(k as int).push(v@[k as int]));
        }
        k = k + 1;
    }
    proof {
        assert(v@.take(k as int) =~= v@);
    }
    s
}

} // verus!

verus! {

/// Every word is non-empty and holds no whitespace.
pub proof fn lemma_words_have_no_white_space(s: Seq<char>, i: int)
    requires
        0 <= i <= s.len(),
    ensures
        forall|w: int|
            0 <= w < words_from(s, i).len() ==> #[trigger] words_from(s, i)[w].len() > 0,
        forall|w: int, k: int|
            0 <= w < words_from(s, i).len() && 0 <= k < words_from(s, i)[w].len()
                ==> !is_white_space(#[trigger] words_from(s, i)[w][k]),
    decreases s.len() - i,
{
    if i < s.len() {
        if is_white_space(s[i]) {
            lemma_words_have_no_white_space(s, i + 1);
            assert(words_from(s, i) == words_from(s, i + 1));
        } else {
            let j = word_end(s, i + 1);
            lemma_word_end(s, i + 1);
            lemma_words_have_no_white_space(s, j);
            let ws = words_from(s, i);
            let rest = words_from(s, j);
            assert(ws == seq![s.subrange(i, j)] + rest);
            assert(ws[0] == s.subrange(i, j));
            assert forall|w: int| 0 <= w < ws.len() implies #[trigger] ws[w].len() > 0 by {
                if w > 0 {
                    assert(ws[w] == rest[w - 1]);
                }
            }
            assert forall|w: int, k: int|
                0 <= w < ws.len() && 0 <= k < ws[w].len() implies !is_white_space(
                #[trigger] ws[w][k],
            ) by {
                if w > 0 {
                    assert(ws[w] == rest[w - 1]);
                } else {
                    assert(ws[0][k] == s[i + k]);
                }
            }
        }
    }
}

} // verus!

verus! {

/// The words run from `i` to `j` when no character between them is
/// whitespace and `j` ends the text or holds whitespace.
pub proof fn lemma_word_end_at(s: Seq<char>, i: int, j: int)
    requires
        0 <= i <= j <= s.len(),
        forall|k: int| i <= k < j ==> !is_white_space(#[trigger] s[k]),
        j == s.len() || is_white_space(s[j]),
    ensures
        word_end(s, i) == j,
    decreases j - i,
{
    if i < j {
        lemma_word_end_at(s, i + 1, j);
    }
}

/// A line runs from `i` to `j` when no character between them is a line
/// feed and `j` ends the text or holds one.
pub proof fn lemma_line_end_at(s: Seq<char>, i: int, j: int)
    requires
        0 <= i <= j <= s.len(),
        forall|k: int| i <= k < j ==> #[trigger] s[k] != '\n',
        j == s.len() || s[j] == '\n',
    ensures
        line_end(s, i) == j,
    decreases j - i,
{
    if i < j {
        lemma_line_end_at(s, i + 1, j);
    }
}

/// `fields` joined by single spaces.
pub open spec fn joined(fields: Seq<Seq<char>>) -> Seq<char>
    decreases fields.len(),
{
    if fields.len() == 0 {
        Seq::empty()
    } else if fields.len() == 1 {
        fields[0]
    } else {
        fields[0] + seq![' '] + joined(fields.drop_first())
    }
}

/// Whether `w` is non-empty and holds no whitespace.
pub open spec fn is_word(w: Seq<char>) -> bool {
    w.len() > 0 && forall|k: int| 0 <= k < w.len() ==> !is_white_space(#[trigger] w[k])
}

/// The words of a text are the same after a prefix as in the text without
/// it.
proof fn lemma_words_from_shift(a: Seq<char>, b: Seq<char>, i: int)
    requires
        0 <= i <= b.len(),
    ensures
        words_from(a + b, a.len() + i) == words_from(b, i),
    decreases b.len() - i,
{
    let s = a + b;
    let n = a.len();
    if i < b.len() {
        assert(s[n + i] == b[i]);
        if is_white_space(b[i]) {
            lemma_words_from_shift(a, b, i + 1);
        } else {
            lemma_word_end(b, i + 1);
            let j = word_end(b, i + 1);
            assert forall|k: int| n + i + 1 <= k < n + j implies !is_white_space(#[trigger] s[k]) by {
                assert(s[k] == b[k - n]);
            }
            if j < b.len() {
                assert(s[n + j] == b[j]);
            }
            lemma_word_end_at(s, n + i + 1, n + j);
            lemma_words_from_shift(a, b, j);
            assert(s.subrange(n + i, n + j) =~= b.subrange(i, j));
        }
    }
}

/// Splitting words joined by single spaces at whitespace gives the words
/// back.
pub proof fn lemma_words_of_joined(fields: Seq<Seq<char>>)
    requires
        forall|f: int| 0 <= f < fields.len() ==> is_word(#[trigger] fields[f]),
    ensures
        words(joined(fields)) == fields,
    decreases fields.len(),
{
    if fields.len() == 0 {
        assert(words(joined(fields)) =~= fields);
    } else {
        let f0 = fields[0];
        assert(is_word(f0));
        let s = joined(fields);
        let m = f0.len() as int;
        if fields.len() == 1 {
            assert(s == f0);
            assert(!is_white_space(s[0]));
            lemma_word_end_at(s, 1, m);
            assert(s.subrange(0, m) =~= f0);
            assert(words_from(s, m) =~= Seq::<Seq<char>>::empty());
            assert(words(s) == seq![s.subrange(0, m)] + words_from(s, m));
            assert(words(s) =~= fields);
        } else {
            let rest = fields.drop_first();
            assert forall|f: int| 0 <= f < rest.len() implies is_word(#[trigger] rest[f]) by {
                assert(rest[f] == fields[f + 1]);
            }
            lemma_words_of_joined(rest);
            let head = f0 + seq![' '];
            assert(s == head + joined(rest));
            assert forall|k: int| 1 <= k < m implies !is_white_space(#[trigger] s[k]) by {
                assert(s[k] == f0[k]);
            }
            assert(s[m] == ' ');
            lemma_word_end_at(s, 1, m);
            assert(s[0] == f0[0]);
            assert(s.subrange(0, m) =~= f0);
            lemma_words_from_shift(head, joined(rest), 0);
            assert(words_from(s, m) == words_from(s, m + 1));
            assert(words(s) =~= seq![f0] + rest);
        }
    }
}

/// Text with no line feed from `i` on is one last line.
pub proof fn lemma_last_line(s: Seq<char>, i: int)
    requires
        0 <= i < s.len(),
        forall|k: int| i <= k < s.len() ==> #[trigger] s[k] != '\n',
    ensures
        lines_from(s, i) == seq![s.subrange(i, s.len() as int)],
{
    lemma_line_end_at(s, i, s.len() as int);
    assert(lines_from(s, s.len() + 1int) =~= Seq::<Seq<char>>::empty());
    assert(lines_from(s, i) =~= seq![s.subrange(i, s.len() as int)]);
}

} // verus!

verus! {

/// Words joined by single spaces hold no whitespace but those spaces, so
/// in particular no line feed and no carriage return.
pub proof fn lemma_joined_chars(fields: Seq<Seq<char>>)
    requires
        forall|f: int| 0 <= f < fields.len() ==> is_word(#[trigger] fields[f]),
    ensures
        forall|k: int|
            0 <= k < joined(fields).len() ==> #[trigger] joined(fields)[k] == ' '
                || !is_white_space(joined(fields)[k]),
        fields.len() > 0 ==> joined(fields).len() > 0 && !is_white_space(
            joined(fields).last(),
        ),
    decreases fields.len(),
{
    if fields.len() == 1 {
        assert(is_word(fields[0]));
    } else if fields.len() > 1 {
        let rest = fields.drop_first();
        assert forall|f: int| 0 <= f < rest.len() implies is_word(#[trigger] rest[f]) by {
            assert(rest[f] == fields[f + 1]);
        }
        lemma_joined_chars(rest);
        let f0 = fields[0];
        assert(is_word(f0));
        let s = joined(fields);
        let tail = joined(rest);
        assert(s == f0 + seq![' '] + tail);
        assert forall|k: int| 0 <= k < s.len() implies #[trigger] s[k] == ' ' || !is_white_space(
            s[k],
        ) by {
            if k < f0.len() {
                assert(s[k] == f0[k]);
            } else if k > f0.len() {
                assert(s[k] == tail[k - f0.len() - 1]);
            }
        }
        assert(s.last() == tail.last());
    }
}

/// A line feed ends a line, and a carriage return just before it is not
/// part of the line: `a`, a carriage return, a line feed and `b` are the
/// lines `a` and `b`.
pub proof fn lemma_crlf_lines(a: Seq<char>, b: Seq<char>)
    requires
        forall|k: int| 0 <= k < a.len() ==> #[trigger] a[k] != '\n',
        forall|k: int| 0 <= k < b.len() ==> #[trigger] b[k] != '\n',
        b.len() > 0,
    ensures
        lines(a + seq!['\r', '\n'] + b) == seq![a, b],
{
    let s = a + seq!['\r', '\n'] + b;
    let n = a.len() as int;
    assert forall|k: int| 0 <= k < n + 1 implies #[trigger] s[k] != '\n' by {
        if k < n {
            assert(s[k] == a[k]);
        }
    }
    assert(s[n + 1] == '\n');
    lemma_line_end_at(s, 0, n + 1);
    assert(line_text(s, 0, n + 1) =~= a);
    assert forall|k: int| n + 2 <= k < s.len() implies #[trigger] s[k] != '\n' by {
        assert(s[k] == b[k - n - 2]);
    }
    lemma_last_line(s, n + 2);
    assert(s.subrange(n + 2, s.len() as int) =~= b);
    assert(lines(s) =~= seq![a, b]);
}

/// A final line feed ends the last line and starts no other.
pub proof fn lemma_final_line_feed(a: Seq<char>)
    requires
        forall|k: int| 0 <= k < a.len() ==> #[trigger] a[k] != '\n',
        a.len() == 0 || a.last() != '\r',
    ensures
        lines(a.push('\n')) == seq![a],
{
    let s = a.push('\n');
    let n = a.len() as int;
    assert forall|k: int| 0 <= k < n implies #[trigger] s[k] != '\n' by {
        assert(s[k] == a[k]);
    }
    lemma_line_end_at(s, 0, n);
    assert(s.subrange(0, n) =~= a);
    assert(lines_from(s, n + 1) =~= Seq::<Seq<char>>::empty());
    assert(lines(s) =~= seq![a]);
}

} // verus!
