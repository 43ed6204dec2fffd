//! Unicode normalisation of cell text.
use vstd::prelude::*;
use unicode_normalization::UnicodeNormalization;
use crate::text::chars_of;

verus! {

/// What `unicode_normalization`'s canonical composition (NFC) gives for a
/// string.
pub uninterp spec fn nfc_of(s: Seq<char>) -> Seq<char>;

/// Every character of `s` is 7-bit ASCII.
pub open spec fn is_ascii_text(s: Seq<char>) -> bool {
    forall|k: int| 0 <= k < s.len() ==> (#[trigger] s[k]) <= '\x7f'
}

/// Calls `UnicodeNormalization::nfc` on the string and collects the
/// characters. Claimed: the result is the named NFC form of the argument.
/// Also claimed, as the crate's source shows:
/// - the result is in NFC, so its own NFC is itself (the iterator yields
///   "the string in Unicode Normalization Form C", and `is_nfc` defines
///   being in NFC as equal to one's NFC);
/// - it holds no OHM SIGN U+2126 (`qc_nfc` answers `No` for it, so no text
///   in NFC holds it);
/// - it is the NFC of every text whose ohm signs, written as omega, give
///   the argument (U+2126 decomposes canonically to U+03A9, which does not
///   decompose);
/// - it is non-empty when the argument is (every character decomposes to
///   at least one, and composition keeps at least one);
/// - an ASCII argument is its own NFC (ASCII never decomposes and
///   `is_nfc_quick` answers `Yes` for it).
/// Nothing else is claimed; in particular not that the result keeps the
/// argument free of leading and trailing whitespace.
#[verifier::external_body]
fn nfc(s: &str) -> (r: String)
    ensures
        r@ == nfc_of(s@),
        nfc_of(r@) == r@,
        !r@.contains('\u{2126}'),
        forall|t: Seq<char>| #[trigger] ohm_to_omega(t) == s@ ==> nfc_of(t) == r@,
        s@.len() > 0 ==> r@.len() > 0,
        is_ascii_text(s@) ==> r@ == s@,
{
    s.nfc().collect::<String>()
}

/// OHM SIGN (U+2126) written as GREEK CAPITAL LETTER OMEGA (U+03A9); every
/// other character kept.
pub open spec fn ohm_to_omega(s: Seq<char>) -> Seq<char> {
    s.map_values(|c: char| if c == '\u{2126}' { '\u{03A9}' } else { c })
}

/// The text that a cell contributes: the ohm sign replaced by omega, then
/// brought to NFC.
pub open spec fn normalized(s: Seq<char>) -> Seq<char> {
    nfc_of(ohm_to_omega(s))
}

/// Replaces the ohm sign by omega and normalises to NFC. The result is
/// the plain NFC of the value, holds no ohm sign, is unchanged when
/// normalised again, is non-empty when the value is, and equals an ASCII
/// value.
pub fn normalize_text(value: String) -> (r: String)
    ensures
        r@ == normalized(value@),
        r@ == nfc_of(value@),
        !r@.contains('\u{2126}'),
        normalized(r@) == r@,
        value@.len() > 0 ==> r@.len() > 0,
        is_ascii_text(value@) ==> r@ == value@,
{
    let v = chars_of(value.as_str());
    let mut replaced = String::new();
    let mut k: usize = 0;
    while k < v.len()
        invariant
            k <= v@.len(),
            v@ == value@,
            replaced@ == ohm_to_omega(v@.take(k as int)),
        decreases v@.len() - k,
    {
        let c = v[k];
        let d = if c == '\u{2126}' { '\u{03A9}' } else { c };
        replaced.push(d);
        assert(ohm_to_omega(v@.take(k + 1)) =~= ohm_to_omega(v@.take(k as int)).push(d));
        k = k + 1;
    }
    assert(v@.take(v@.len() as int) =~= v@);
    let r = nfc(replaced.as_str());
    proof {
        assert(ohm_to_omega(value@) == replaced@);
        assert(ohm_to_omega(r@) =~= r@) by {
            assert forall|k: int| 0 <= k < r@.len() implies r@[k] != '\u{2126}' by {
                if r@[k] == '\u{2126}' {
                    assert(r@.contains('\u{2126}'));
                }
            }
        }
        if is_ascii_text(value@) {
            assert(ohm_to_omega(value@) =~= value@);
        }
    }
    r
}

} // verus!
