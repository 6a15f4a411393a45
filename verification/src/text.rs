//! Text helpers: the few standard-library text functions the library
//! relies on, with what their documentation promises.
use vstd::prelude::*;
use vstd::utf8::{decode_utf8, valid_utf8};

verus! {

/// What `String::from_utf8_lossy` makes of a byte sequence: the UTF-8
/// decoding, with each invalid sequence replaced by U+FFFD.
pub uninterp spec fn utf8_lossy(bytes: Seq<u8>) -> Seq<char>;

/// Decodes bytes as UTF-8, replacing invalid sequences
/// (`String::from_utf8_lossy`). Trusted: the result is the named
/// `utf8_lossy` of the bytes, and, as documented, the plain decoding when
/// the bytes are valid UTF-8. How invalid sequences are replaced is left
/// unstated.
#[verifier::external_body]
pub fn decode_lossy(bytes: &[u8]) -> (s: String)
    ensures
        s@ == utf8_lossy(bytes@),
        valid_utf8(bytes@) ==> s@ == decode_utf8(bytes@),
{
    String::from_utf8_lossy(bytes).into_owned()
}

/// What `str::to_uppercase` makes of a text (Unicode upper-case mapping).
pub uninterp spec fn uppercase_of(s: Seq<char>) -> Seq<char>;

/// Upper-cases a text (`str::to_uppercase`). Trusted: the result is the
/// named `uppercase_of` of the text; the Unicode mapping itself is left
/// unstated.
#[verifier::external_body]
pub fn to_uppercase(s: &str) -> (r: String)
    ensures
        r@ == uppercase_of(s@),
{
    s.to_uppercase()
}

/// What `str::to_lowercase` makes of a text (Unicode lower-case mapping).
pub uninterp spec fn lowercase_of(s: Seq<char>) -> Seq<char>;

/// Lower-cases a text (`str::to_lowercase`). Trusted: the result is the
/// named `lowercase_of` of the text; the Unicode mapping itself is left
/// unstated.
#[verifier::external_body]
pub fn to_lowercase(s: &str) -> (r: String)
    ensures
        r@ == lowercase_of(s@),
{
    s.to_lowercase()
}

/// Appends one character (`String::push`). Trusted: the text grows by
/// exactly that character, as documented.
#[verifier::external_body]
pub fn push_char(s: &mut String, c: char)
    ensures
        final(s)@ == old(s)@.push(c),
{
    s.push(c)
}

/// A text made of the given characters, in order.
pub fn string_from_chars(cs: &[char]) -> (s: String)
    ensures
        s@ == cs@,
{
    let mut s = String::new();
    let mut i: usize = 0;
    while i < cs.len()
        invariant
            i <= cs@.len(),
            s@ == cs@.take(i as int),
        decreases cs@.len() - i,
    {
        push_char(&mut s, cs[i]);
        assert(cs@.take(i + 1) =~= cs@.take(i as int).push(cs@[i as int]));
        i = i + 1;
    }
    assert(cs@.take(cs@.len() as int) =~= cs@);
    s
}

/// The characters of a text, in order.
pub fn chars_of(s: &str) -> (v: Vec<char>)
    ensures
        v@ == s@,
{
    let mut v: Vec<char> = Vec::new();
    for c in it: s.chars()
        invariant
            v@ == it.seq().take(it.index()),
    {
        v.push(c);
    }
    v
}

/// The least index at or after `from` where `s` holds `c`.
pub open spec fn char_index_from(s: Seq<char>, c: char, from: int) -> Option<int>
    decreases s.len() - from,
{
    if from < 0 || from >= s.len() {
        None
    } else if s[from] == c {
        Some(from)
    } else {
        char_index_from(s, c, from + 1)
    }
}

/// If `s` holds `c` at `j` and nowhere in `from..j`, the search from
/// `from` finds `j`.
pub proof fn lemma_char_index_at(s: Seq<char>, c: char, from: int, j: int)
    requires
        0 <= from <= j < s.len(),
        s[j] == c,
        forall|k: int| from <= k < j ==> #[trigger] s[k] != c,
    ensures
        char_index_from(s, c, from) == Some(j),
    decreases j - from,
{
    if from < j {
        lemma_char_index_at(s, c, from + 1, j);
    }
}

/// If `s` holds `c` nowhere from `from` on, the search finds nothing.
pub proof fn lemma_char_index_none(s: Seq<char>, c: char, from: int)
    requires
        0 <= from,
        forall|k: int| from <= k < s.len() ==> #[trigger] s[k] != c,
    ensures
        char_index_from(s, c, from) is None,
    decreases s.len() - from,
{
    if from < s.len() {
        lemma_char_index_none(s, c, from + 1);
    }
}

/// The pieces of `s` between occurrences of `sep` (`str::split` with a
/// character pattern): one more piece than there are separators.
pub open spec fn split_on(s: Seq<char>, sep: char) -> Seq<Seq<char>>
    decreases s.len(),
{
    match char_index_from(s, sep, 0) {
        None => seq![s],
        Some(i) => if 0 <= i < s.len() {
            seq![s.take(i)] + split_on(s.skip(i + 1), sep)
        } else {
            seq![s]
        },
    }
}

/// The view of a list of character vectors.
pub open spec fn char_vecs(v: Seq<Vec<char>>) -> Seq<Seq<char>> {
    v.map_values(|x: Vec<char>| x@)
}

/// Splits a character sequence at every `sep` (as `str::split` does).
pub fn split_chars(s: &[char], sep: char) -> (parts: Vec<Vec<char>>)
    ensures
        char_vecs(parts@) == split_on(s@, sep),
{
    let mut parts: Vec<Vec<char>> = Vec::new();
    let mut cur: Vec<char> = Vec::new();
    let mut i: usize = 0;
    assert(cur@ + s@.skip(0) =~= s@);
    while i < s.len()
        invariant
            i <= s@.len(),
            forall|k: int| 0 <= k < cur@.len() ==> #[trigger] cur@[k] != sep,
            split_on(s@, sep) == char_vecs(parts@) + split_on(cur@ + s@.skip(i as int), sep),
        decreases s@.len() - i,
    {
        let c = s[i];
        let ghost t = cur@ + s@.skip(i as int);
        if c == sep {
            proof {
                assert(t[cur@.len() as int] == sep);
                lemma_char_index_at(t, sep, 0, cur@.len() as int);
                assert(t.take(cur@.len() as int) =~= cur@);
                assert(t.skip(cur@.len() as int + 1) =~= s@.skip(i + 1));
                assert(Seq::<char>::empty() + s@.skip(i + 1) =~= s@.skip(i + 1));
            }
            let ghost before = char_vecs(parts@);
            let ghost piece = cur@;
            parts.push(cur);
            cur = Vec::new();
            proof {
                assert(char_vecs(parts@) =~= before.push(piece));
                assert(before + (seq![piece] + split_on(s@.skip(i + 1), sep)) =~= before.push(piece)
                    + split_on(s@.skip(i + 1), sep));
            }
        } else {
            cur.push(c);
            proof {
                assert(cur@ + s@.skip(i + 1) =~= t);
            }
        }
        i = i + 1;
    }
    proof {
        let t = cur@ + s@.skip(i as int);
        assert(t =~= cur@);
        lemma_char_index_none(t, sep, 0);
    }
    let ghost before = char_vecs(parts@);
    let ghost piece = cur@;
    parts.push(cur);
    assert(char_vecs(parts@) =~= before + seq![piece]);
    parts
}

} // verus!
