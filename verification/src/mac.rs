//! Bluetooth addresses: `XX:XX:XX:XX:XX:XX` to the six bytes of the
//! kernel's `sockaddr_rc`, which stores them in reverse order.
use vstd::prelude::*;
use crate::text::{char_vecs, chars_of, split_chars, split_on};

verus! {

/// Why an address text was refused.
#[derive(Debug, Clone, Copy, PartialEq, Eq, Structural)]
pub enum MacError {
    /// The text does not have six colon-separated parts.
    InvalidAddress,
    /// A part is not a hexadecimal byte.
    InvalidHex,
}

/// Whether a character is a hexadecimal digit (either case).
pub open spec fn is_hex_char(c: char) -> bool {
    ('0' <= c && c <= '9') || ('a' <= c && c <= 'f') || ('A' <= c && c <= 'F')
}

/// The value of a hexadecimal digit.
pub open spec fn hex_val(c: char) -> int {
    if '0' <= c && c <= '9' {
        c as int - '0' as int
    } else if 'a' <= c && c <= 'f' {
        c as int - 'a' as int + 10
    } else {
        c as int - 'A' as int + 10
    }
}

/// The number that a sequence of hexadecimal digits stands for.
pub open spec fn hex_number(ds: Seq<char>) -> int
    decreases ds.len(),
{
    if ds.len() == 0 {
        0
    } else {
        hex_number(ds.drop_last()) * 16 + hex_val(ds.last())
    }
}

/// The digits of a number text: all but a leading `+`.
pub open spec fn digits_part(s: Seq<char>) -> Seq<char> {
    if s.len() > 0 && s[0] == '+' {
        s.drop_first()
    } else {
        s
    }
}

/// Whether every character is a hexadecimal digit.
pub open spec fn all_hex(ds: Seq<char>) -> bool {
    forall|k: int| 0 <= k < ds.len() ==> is_hex_char(#[trigger] ds[k])
}

/// A byte written in hexadecimal, as `u8::from_str_radix(s, 16)` reads it:
/// an optional `+`, then at least one hexadecimal digit, with a value of at
/// most 255 (leading zeros allowed).
pub open spec fn parse_hex_byte(s: Seq<char>) -> Option<u8> {
    let ds = digits_part(s);
    if ds.len() == 0 {
        None
    } else if !all_hex(ds) {
        None
    } else if hex_number(ds) > 255 {
        None
    } else {
        Some(hex_number(ds) as u8)
    }
}

/// What an address text stands for: six colon-separated hexadecimal
/// bytes, stored last part first.
pub open spec fn parse_mac_spec(s: Seq<char>) -> Result<Seq<u8>, MacError> {
    let parts = split_on(s, ':');
    if parts.len() != 6 {
        Err(MacError::InvalidAddress)
    } else if exists|k: int| 0 <= k < 6 && (#[trigger] parse_hex_byte(parts[k])) is None {
        Err(MacError::InvalidHex)
    } else {
        Ok(Seq::new(6, |i: int| parse_hex_byte(parts[5 - i])->0))
    }
}

fn hex_char_value(c: char) -> (r: Option<u8>)
    ensures
        is_hex_char(c) <==> r is Some,
        r matches Some(v) ==> v == hex_val(c) && v < 16,
{
    if '0' <= c && c <= '9' {
        Some((c as u32 - '0' as u32) as u8)
    } else if 'a' <= c && c <= 'f' {
        Some((c as u32 - 'a' as u32 + 10) as u8)
    } else if 'A' <= c && c <= 'F' {
        Some((c as u32 - 'A' as u32 + 10) as u8)
    } else {
        None
    }
}

/// Reads a byte written in hexadecimal (see `parse_hex_byte`).
pub fn parse_hex_u8(s: &[char]) -> (r: Option<u8>)
    ensures
        r == parse_hex_byte(s@),
{
    let start: usize = if s.len() > 0 && s[0] == '+' {
        1
    } else {
        0
    };
    let ghost ds = digits_part(s@);
    assert(ds =~= s@.skip(start as int));
    if start >= s.len() {
        return None;
    }
    let mut acc: u32 = 0;
    let mut over = false;
    let mut i: usize = start;
    assert(ds.take(0) =~= Seq::<char>::empty());
    while i < s.len()
        invariant
            start <= i <= s@.len(),
            ds == s@.skip(start as int),
            ds == digits_part(s@),
            forall|k: int| 0 <= k < i - start ==> is_hex_char(#[trigger] ds[k]),
            !over ==> acc == hex_number(ds.take(i - start)) && acc <= 255,
            over ==> hex_number(ds.take(i - start)) > 255,
        decreases s@.len() - i,
    {
        let c = s[i];
        assert(ds[i - start] == c);
        match hex_char_value(c) {
            None => {
                assert(!is_hex_char(ds[i - start]));
                assert(0 <= i - start < ds.len());
                return None;
            },
            Some(d) => {
                proof {
                    let t = ds.take(i - start + 1);
                    assert(t.drop_last() =~= ds.take(i - start));
                    assert(t.last() == c);
                }
                if !over {
                    let next = acc * 16 + d as u32;
                    if next > 255 {
                        over = true;
                    } else {
                        acc = next;
                    }
                }
            },
        }
        i = i + 1;
    }
    assert(ds.take(ds.len() as int) =~= ds);
    if over {
        None
    } else {
        Some(acc as u8)
    }
}

/// Reads `XX:XX:XX:XX:XX:XX` into six bytes in reverse order.
pub fn parse_mac(addr: &str) -> (r: Result<[u8; 6], MacError>)
    ensures
        match parse_mac_spec(addr@) {
            Ok(bytes) => (r matches Ok(a) && a@ == bytes),
            Err(e) => r == Err::<[u8; 6], MacError>(e),
        },
{
    let chars = chars_of(addr);
    let parts = split_chars(chars.as_slice(), ':');
    let ghost pv = char_vecs(parts@);
    if parts.len() != 6 {
        return Err(MacError::InvalidAddress);
    }
    let mut bytes: Vec<u8> = Vec::new();
    let mut i: usize = 0;
    while i < 6
        invariant
            i <= 6,
            parts@.len() == 6,
            pv == char_vecs(parts@),
            pv == split_on(addr@, ':'),
            bytes@.len() == i,
            forall|k: int| 0 <= k < i ==> parse_hex_byte(pv[5 - k]) == Some(#[trigger] bytes@[k]),
        decreases 6 - i,
    {
        assert(pv[5 - i as int] == parts@[5 - i as int]@);
        match parse_hex_u8(parts[5 - i].as_slice()) {
            None => {
                assert(parse_hex_byte(pv[5 - i as int]) is None);
                return Err(MacError::InvalidHex);
            },
            Some(b) => {
                bytes.push(b);
            },
        }
        i = i + 1;
    }
    let a: [u8; 6] = [bytes[0], bytes[1], bytes[2], bytes[3], bytes[4], bytes[5]];
    proof {
        assert forall|k: int| 0 <= k < 6 implies (#[trigger] parse_hex_byte(pv[k])) is Some by {
            assert(parse_hex_byte(pv[5 - (5 - k)]) == Some(bytes@[5 - k]));
        }
        assert(a@ =~= Seq::new(6, |j: int| parse_hex_byte(pv[5 - j])->0));
    }
    Ok(a)
}

} // verus!
