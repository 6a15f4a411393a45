//! Picking a connected Sony headphone out of `bluetoothctl devices
//! Connected` output (lines of the form `Device XX:XX:.. Name`).
use vstd::prelude::*;
use crate::text::{
    decode_lossy, utf8_lossy, char_index_from, char_vecs, chars_of, lemma_char_index_at, lemma_char_index_none,
    string_from_chars, to_uppercase, uppercase_of,
};

verus! {

/// A line without a trailing carriage return.
pub open spec fn strip_cr(l: Seq<char>) -> Seq<char> {
    if l.len() > 0 && l.last() == '\r' {
        l.drop_last()
    } else {
        l
    }
}

/// The lines of a text, as `str::lines` gives them: split at each `\n`,
/// a `\r` right before a `\n` dropped, and no empty line after a final
/// `\n`.
pub open spec fn lines_spec(s: Seq<char>) -> Seq<Seq<char>>
    decreases s.len(),
{
    match char_index_from(s, '\n', 0) {
        None => if s.len() == 0 {
            Seq::empty()
        } else {
            seq![s]
        },
        Some(i) => if 0 <= i < s.len() {
            seq![strip_cr(s.take(i))] + lines_spec(s.skip(i + 1))
        } else {
            Seq::empty()
        },
    }
}

/// Unicode `White_Space` characters, those for which `char::is_whitespace`
/// holds.
pub open spec fn is_white_space(c: char) -> bool {
    ('\u{9}' <= c && c <= '\u{d}') || c == ' ' || c == '\u{85}' || c == '\u{a0}' || c == '\u{1680}'
        || ('\u{2000}' <= c && c <= '\u{200a}') || c == '\u{2028}' || c == '\u{2029}' || c
        == '\u{202f}' || c == '\u{205f}' || c == '\u{3000}'
}

/// Whether a character is Unicode white space (as `char::is_whitespace`).
pub fn white_space(c: char) -> (r: bool)
    ensures
        r == is_white_space(c),
{
    ('\u{9}' <= c && c <= '\u{d}') || c == ' ' || c == '\u{85}' || c == '\u{a0}' || c == '\u{1680}'
        || ('\u{2000}' <= c && c <= '\u{200a}') || c == '\u{2028}' || c == '\u{2029}' || c
        == '\u{202f}' || c == '\u{205f}' || c == '\u{3000}'
}

/// The index of the first white-space character at or after `from`, or
/// the length when there is none.
pub open spec fn first_ws_from(s: Seq<char>, from: int) -> int
    decreases s.len() - from,
{
    if from < 0 || from >= s.len() {
        s.len() as int
    } else if is_white_space(s[from]) {
        from
    } else {
        first_ws_from(s, from + 1)
    }
}

proof fn lemma_first_ws_at(s: Seq<char>, from: int, j: int)
    requires
        0 <= from <= j <= s.len(),
        j < s.len() ==> is_white_space(s[j]),
        forall|k: int| from <= k < j ==> !is_white_space(#[trigger] s[k]),
    ensures
        first_ws_from(s, from) == j,
    decreases j - from,
{
    if from < j {
        lemma_first_ws_at(s, from + 1, j);
    }
}

/// The fields of a text separated by runs of white space, as
/// `str::split_whitespace` gives them (no empty fields).
pub open spec fn ws_fields(s: Seq<char>) -> Seq<Seq<char>>
    decreases s.len(),
{
    if s.len() == 0 {
        Seq::empty()
    } else if is_white_space(s[0]) {
        ws_fields(s.drop_first())
    } else {
        let j = first_ws_from(s, 0);
        if 0 < j <= s.len() {
            seq![s.take(j)] + ws_fields(s.skip(j))
        } else {
            Seq::empty()
        }
    }
}

/// Whether `needle` occurs in `hay`.
pub open spec fn contains_seq(hay: Seq<char>, needle: Seq<char>) -> bool {
    exists|i: int| 0 <= i && i + needle.len() <= hay.len() && #[trigger] hay.subrange(i, i + needle.len()) == needle
}

/// `WH-1000XM`
pub open spec fn wh_model() -> Seq<char> {
    seq!['W', 'H', '-', '1', '0', '0', '0', 'X', 'M']
}

/// `WF-1000XM`
pub open spec fn wf_model() -> Seq<char> {
    seq!['W', 'F', '-', '1', '0', '0', '0', 'X', 'M']
}

/// The address that a line names when its upper-cased form mentions a
/// WH-1000XM or WF-1000XM and it has at least two fields: its second field.
pub open spec fn line_mac_spec(line: Seq<char>, upper: Seq<char>) -> Option<Seq<char>> {
    if (contains_seq(upper, wh_model()) || contains_seq(upper, wf_model())) && ws_fields(line).len()
        >= 2 {
        Some(ws_fields(line)[1])
    } else {
        None
    }
}

/// The address named by the first line that names one.
pub open spec fn find_in_lines(ls: Seq<Seq<char>>) -> Option<Seq<char>>
    decreases ls.len(),
{
    if ls.len() == 0 {
        None
    } else {
        match line_mac_spec(ls[0], uppercase_of(ls[0])) {
            Some(m) => Some(m),
            None => find_in_lines(ls.drop_first()),
        }
    }
}

/// The lines of a character sequence (see `lines_spec`).
pub fn split_lines(s: &[char]) -> (ls: Vec<Vec<char>>)
    ensures
        char_vecs(ls@) == lines_spec(s@),
{
    let mut ls: Vec<Vec<char>> = Vec::new();
    let mut cur: Vec<char> = Vec::new();
    let mut i: usize = 0;
    assert(cur@ + s@.skip(0) =~= s@);
    while i < s.len()
        invariant
            i <= s@.len(),
            forall|k: int| 0 <= k < cur@.len() ==> #[trigger] cur@[k] != '\n',
            lines_spec(s@) == char_vecs(ls@) + lines_spec(cur@ + s@.skip(i as int)),
        decreases s@.len() - i,
    {
        let c = s[i];
        let ghost t = cur@ + s@.skip(i as int);
        if c == '\n' {
            proof {
                assert(t[cur@.len() as int] == '\n');
                lemma_char_index_at(t, '\n', 0, cur@.len() as int);
                assert(t.take(cur@.len() as int) =~= cur@);
                assert(t.skip(cur@.len() as int + 1) =~= s@.skip(i + 1));
                assert(Seq::<char>::empty() + s@.skip(i + 1) =~= s@.skip(i + 1));
            }
            let ghost before = char_vecs(ls@);
            let ghost piece = strip_cr(cur@);
            let n = cur.len();
            if n > 0 && cur[n - 1] == '\r' {
                cur.pop();
            }
            assert(cur@ == piece);
            ls.push(cur);
            cur = Vec::new();
            proof {
                assert(char_vecs(ls@) =~= before.push(piece));
                assert(before + (seq![piece] + lines_spec(s@.skip(i + 1))) =~= before.push(piece)
                    + lines_spec(s@.skip(i + 1)));
            }
        } else {
            cur.push(c);
            proof {
                assert(cur@ + s@.skip(i + 1) =~= t);
            }
        }
        i = i + 1;
    }
    proof {
        let t = cur@ + s@.skip(i as int);
        assert(t =~= cur@);
        lemma_char_index_none(t, '\n', 0);
    }
    let ghost before = char_vecs(ls@);
    if cur.len() > 0 {
        let ghost piece = cur@;
        ls.push(cur);
        assert(char_vecs(ls@) =~= before + seq![piece]);
    } else {
        assert(before + Seq::<Seq<char>>::empty() =~= before);
    }
    ls
}

/// The white-space separated fields of a character sequence.
pub fn split_fields(s: &[char]) -> (fs: Vec<Vec<char>>)
    ensures
        char_vecs(fs@) == ws_fields(s@),
{
    let mut fs: Vec<Vec<char>> = Vec::new();
    let mut cur: Vec<char> = Vec::new();
    let mut i: usize = 0;
    assert(cur@ + s@.skip(0) =~= s@);
    while i < s.len()
        invariant
            i <= s@.len(),
            forall|k: int| 0 <= k < cur@.len() ==> !is_white_space(#[trigger] cur@[k]),
            ws_fields(s@) == char_vecs(fs@) + ws_fields(cur@ + s@.skip(i as int)),
        decreases s@.len() - i,
    {
        let c = s[i];
        let ghost t = cur@ + s@.skip(i as int);
        assert(t[cur@.len() as int] == c);
        if white_space(c) {
            if cur.len() == 0 {
                proof {
                    assert(t =~= s@.skip(i as int));
                    assert(t.drop_first() =~= s@.skip(i + 1));
                    assert(Seq::<char>::empty() + s@.skip(i + 1) =~= s@.skip(i + 1));
                    assert(ws_fields(t) == ws_fields(s@.skip(i + 1)));
                }
            } else {
                proof {
                    assert forall|k: int| 0 <= k < cur@.len() implies t[k] == cur@[k] by {}
                    lemma_first_ws_at(t, 0, cur@.len() as int);
                    assert(t[0] == cur@[0]);
                    assert(t.take(cur@.len() as int) =~= cur@);
                    assert(t.skip(cur@.len() as int) =~= s@.skip(i as int));
                    let u = s@.skip(i as int);
                    assert(u[0] == c);
                    assert(u.drop_first() =~= s@.skip(i + 1));
                    assert(ws_fields(u) == ws_fields(s@.skip(i + 1)));
                    assert(!is_white_space(t[0]));
                    assert(ws_fields(t) == seq![t.take(cur@.len() as int)] + ws_fields(
                        t.skip(cur@.len() as int),
                    ));
                    assert(Seq::<char>::empty() + s@.skip(i + 1) =~= s@.skip(i + 1));
                }
                let ghost before = char_vecs(fs@);
                let ghost piece = cur@;
                fs.push(cur);
                cur = Vec::new();
                proof {
                    assert(char_vecs(fs@) =~= before.push(piece));
                    assert(before + (seq![piece] + ws_fields(s@.skip(i + 1))) =~= before.push(piece)
                        + ws_fields(s@.skip(i + 1)));
                    assert(ws_fields(t) == seq![piece] + ws_fields(s@.skip(i + 1)));
                }
            }
        } else {
            cur.push(c);
            proof {
                assert(cur@ + s@.skip(i + 1) =~= t);
            }
        }
        i = i + 1;
    }
    let ghost before = char_vecs(fs@);
    proof {
        let t = cur@ + s@.skip(i as int);
        assert(t =~= cur@);
    }
    if cur.len() > 0 {
        proof {
            let t = cur@;
            lemma_first_ws_at(t, 0, t.len() as int);
            assert(t.take(t.len() as int) =~= t);
            assert(t.skip(t.len() as int) =~= Seq::<char>::empty());
            assert(seq![t] + Seq::<Seq<char>>::empty() =~= seq![t]);
            assert(ws_fields(t.skip(t.len() as int)) =~= Seq::<Seq<char>>::empty());
            assert(ws_fields(t) == seq![t]);
        }
        let ghost piece = cur@;
        fs.push(cur);
        assert(char_vecs(fs@) =~= before + seq![piece]);
    } else {
        assert(ws_fields(cur@) =~= Seq::<Seq<char>>::empty());
        assert(before + Seq::<Seq<char>>::empty() =~= before);
    }
    fs
}

/// Whether `needle` occurs in `hay`.
fn contains_chars(hay: &[char], needle: &[char]) -> (r: bool)
    ensures
        r == contains_seq(hay@, needle@),
{
    let n = needle.len();
    let hl = hay.len();
    if n > hay.len() {
        return false;
    }
    let mut i: usize = 0;
    while i <= hay.len() - n
        invariant
            hl == hay@.len(),
            n == needle@.len(),
            n <= hay@.len(),
            i <= hay@.len() - n + 1,
            forall|k: int| 0 <= k < i ==> #[trigger] hay@.subrange(k, k + n) != needle@,
        decreases hay@.len() - n + 1 - i,
    {
        let mut j: usize = 0;
        while j < n && hay[i + j] == needle[j]
            invariant
                n == needle@.len(),
                hl == hay@.len(),
                i + n <= hl,
                j <= n,
                forall|k: int| 0 <= k < j ==> hay@[i + k] == needle@[k],
            decreases n - j,
        {
            j = j + 1;
        }
        if j == n {
            assert(hay@.subrange(i as int, i + n) =~= needle@);
            return true;
        }
        assert(hay@.subrange(i as int, i + n)[j as int] != needle@[j as int]);
        i = i + 1;
    }
    assert forall|k: int| 0 <= k && k + n <= hay@.len() implies #[trigger] hay@.subrange(k, k + n)
        != needle@ by {
        assert(k < i);
    }
    false
}

/// The address a single line names, given the line and its upper-cased
/// form (see `line_mac_spec`).
pub fn sony_line_mac(line: &str, upper: &str) -> (r: Option<String>)
    ensures
        match line_mac_spec(line@, upper@) {
            Some(m) => (r matches Some(s) && s@ == m),
            None => r is None,
        },
{
    let up = chars_of(upper);
    let wh = ['W', 'H', '-', '1', '0', '0', '0', 'X', 'M'];
    let wf = ['W', 'F', '-', '1', '0', '0', '0', 'X', 'M'];
    assert(wh@ =~= wh_model());
    assert(wf@ =~= wf_model());
    if contains_chars(up.as_slice(), &wh) || contains_chars(up.as_slice(), &wf) {
        let chars = chars_of(line);
        let fields = split_fields(chars.as_slice());
        if fields.len() >= 2 {
            assert(char_vecs(fields@)[1] == fields@[1]@);
            return Some(string_from_chars(fields[1].as_slice()));
        }
    }
    None
}

/// The address of the first connected WH-1000XM or WF-1000XM in
/// `bluetoothctl devices Connected` output: the second field of the first
/// line that mentions one (case-insensitively) and has two fields.
pub fn find_sony_mac_in(output: &str) -> (r: Option<String>)
    ensures
        match find_in_lines(lines_spec(output@)) {
            Some(m) => (r matches Some(s) && s@ == m),
            None => r is None,
        },
{
    let chars = chars_of(output);
    let lines = split_lines(chars.as_slice());
    let ghost all = lines_spec(output@);
    assert(all.skip(0) =~= all);
    let mut i: usize = 0;
    while i < lines.len()
        invariant
            i <= lines@.len(),
            all == char_vecs(lines@),
            all == lines_spec(output@),
            find_in_lines(all) == find_in_lines(all.skip(i as int)),
        decreases lines@.len() - i,
    {
        let line = string_from_chars(lines[i].as_slice());
        let upper = to_uppercase(line.as_str());
        let found = sony_line_mac(line.as_str(), upper.as_str());
        proof {
            assert(line@ == all[i as int]);
            assert(all.skip(i as int)[0] == all[i as int]);
            assert(all.skip(i as int).drop_first() =~= all.skip(i + 1));
            assert(find_in_lines(all.skip(i as int)) == match line_mac_spec(
                all[i as int],
                uppercase_of(all[i as int]),
            ) {
                Some(m) => Some(m),
                None => find_in_lines(all.skip(i + 1)),
            });
        }
        if found.is_some() {
            return found;
        }
        i = i + 1;
    }
    assert(all.skip(i as int) =~= Seq::<Seq<char>>::empty());
    None
}

/// The address of the first connected WH-1000XM or WF-1000XM in the raw
/// bytes that `bluetoothctl devices Connected` printed, decoded leniently
/// from UTF-8 (see `find_sony_mac_in`).
pub fn find_sony_mac_in_output(stdout: &[u8]) -> (r: Option<String>)
    ensures
        match find_in_lines(lines_spec(utf8_lossy(stdout@))) {
            Some(m) => (r matches Some(s) && s@ == m),
            None => r is None,
        },
{
    let text = decode_lossy(stdout);
    find_sony_mac_in(text.as_str())
}

} // verus!
