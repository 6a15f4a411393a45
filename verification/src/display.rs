//! Small pieces of the command-line front end that decide something:
//! reading an on/off word and drawing the battery gauge.
use vstd::prelude::*;
use crate::text::{chars_of, lowercase_of, push_char, to_lowercase};

verus! {

/// The words that mean "on": `on`, `1`, `true`, `yes`.
pub open spec fn on_word(w: Seq<char>) -> bool {
    w == seq!['o', 'n'] || w == seq!['1'] || w == seq!['t', 'r', 'u', 'e'] || w == seq![
        'y',
        'e',
        's',
    ]
}

fn chars_eq(a: &[char], b: &[char]) -> (r: bool)
    ensures
        r == (a@ == b@),
{
    if a.len() != b.len() {
        return false;
    }
    let mut i: usize = 0;
    while i < a.len()
        invariant
            a@.len() == b@.len(),
            i <= a@.len(),
            forall|k: int| 0 <= k < i ==> a@[k] == b@[k],
        decreases a@.len() - i,
    {
        if a[i] != b[i] {
            return false;
        }
        i = i + 1;
    }
    assert(a@ =~= b@);
    true
}

/// Whether an already lower-cased word means "on".
pub fn is_on_word(lower: &str) -> (r: bool)
    ensures
        r == on_word(lower@),
{
    let w = chars_of(lower);
    let on = ['o', 'n'];
    let one = ['1'];
    let tru = ['t', 'r', 'u', 'e'];
    let yes = ['y', 'e', 's'];
    assert(on@ =~= seq!['o', 'n']);
    assert(one@ =~= seq!['1']);
    assert(tru@ =~= seq!['t', 'r', 'u', 'e']);
    assert(yes@ =~= seq!['y', 'e', 's']);
    chars_eq(w.as_slice(), &on) || chars_eq(w.as_slice(), &one) || chars_eq(w.as_slice(), &tru)
        || chars_eq(w.as_slice(), &yes)
}

/// Whether a word means "on", ignoring case (`on`, `1`, `true`, `yes`).
pub fn is_on(s: &str) -> (r: bool)
    ensures
        r == on_word(lowercase_of(s@)),
{
    let lower = to_lowercase(s);
    is_on_word(lower.as_str())
}

/// How many of the fifteen gauge cells a percentage fills:
/// `pct * 15 / 100`, at most 15.
pub open spec fn filled_cells(pct: int) -> int {
    if pct * 15 / 100 > 15 {
        15
    } else {
        pct * 15 / 100
    }
}

/// The battery gauge: fifteen cells, the filled ones first.
pub open spec fn bar_spec(pct: int) -> Seq<char> {
    Seq::new(15, |k: int| if k < filled_cells(pct) { '\u{2588}' } else { '\u{2591}' })
}

/// Draws the battery gauge for a percentage.
pub fn bar(pct: i32) -> (s: String)
    requires
        pct >= 0,
    ensures
        s@ == bar_spec(pct as int),
{
    let w: u64 = 15;
    let raw: u64 = pct as u64 * w / 100;
    let f: u64 = if raw > w {
        w
    } else {
        raw
    };
    assert(f == filled_cells(pct as int));
    let mut s = String::new();
    let mut k: u64 = 0;
    while k < w
        invariant
            w == 15,
            f == filled_cells(pct as int),
            f <= w,
            k <= w,
            s@ == bar_spec(pct as int).take(k as int),
        decreases w - k,
    {
        let c = if k < f {
            '\u{2588}'
        } else {
            '\u{2591}'
        };
        push_char(&mut s, c);
        assert(bar_spec(pct as int).take(k + 1) =~= bar_spec(pct as int).take(k as int).push(c));
        k = k + 1;
    }
    assert(bar_spec(pct as int).take(15) =~= bar_spec(pct as int));
    s
}

/// How a battery level is shown: above 30 good, above 10 low, else critical.
#[derive(Debug, Clone, Copy, PartialEq, Eq, Structural)]
pub enum BatteryTone {
    Good,
    Low,
    Critical,
}

/// The tone of a battery percentage.
pub fn battery_tone(pct: i32) -> (t: BatteryTone)
    ensures
        t == (if pct > 30 {
            BatteryTone::Good
        } else if pct > 10 {
            BatteryTone::Low
        } else {
            BatteryTone::Critical
        }),
{
    if pct > 30 {
        BatteryTone::Good
    } else if pct > 10 {
        BatteryTone::Low
    } else {
        BatteryTone::Critical
    }
}

/// Whether every equalizer band is at 0 (a flat curve).
pub fn eq_is_flat(bands: &[i8]) -> (r: bool)
    ensures
        r == (forall|k: int| 0 <= k < bands@.len() ==> #[trigger] bands@[k] == 0),
{
    let mut i: usize = 0;
    while i < bands.len()
        invariant
            i <= bands@.len(),
            forall|k: int| 0 <= k < i ==> #[trigger] bands@[k] == 0,
        decreases bands@.len() - i,
    {
        if bands[i] != 0 {
            return false;
        }
        i = i + 1;
    }
    true
}

} // verus!
