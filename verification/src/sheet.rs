//! Worksheet cells and the text they hold.
use vstd::prelude::*;
use crate::text::{
    decimal_string, decimal_text, is_single_char, lemma_decimal_text_trimmed,
    lemma_trim_idempotent, opt_view, trim, trim_str,
};

verus! {

/// Text that is non-empty and neither begins nor ends with whitespace, as
/// the formatting of a number is.
pub open spec fn number_text_ok(t: Seq<char>) -> bool {
    t.len() > 0 && trim(t) == t
}

/// The text of a non-integer number, as its formatting gives it: never
/// empty, never padded.
#[derive(Debug, PartialEq, Eq)]
pub struct NumberText {
    text: String,
}

impl View for NumberText {
    type V = Seq<char>;

    closed spec fn view(&self) -> Seq<char> {
        self.text@
    }
}

impl NumberText {
    #[verifier::type_invariant]
    spec fn inv(self) -> bool {
        number_text_ok(self.text@)
    }

    /// The number text `text`, when it is non-empty and unpadded.
    pub fn new(text: String) -> (r: Option<NumberText>)
        ensures
            r is Some <==> number_text_ok(text@),
            r matches Some(n) ==> n@ == text@,
    {
        let t = trim_str(text.as_str());
        if !text.as_str().is_empty() && t == text {
            Some(NumberText { text })
        } else {
            None
        }
    }

    /// The text.
    pub fn as_str(&self) -> (r: &str)
        ensures
            r@ == self@,
            number_text_ok(r@),
    {
        proof {
            use_type_invariant(self);
        }
        self.text.as_str()
    }
}

/// The value of one worksheet cell, as far as the catalogue reads it.
#[derive(Debug, PartialEq, Eq)]
pub enum CellValue {
    /// A text cell.
    Text(String),
    /// An integer cell.
    Int(i64),
    /// A non-integer numeric cell, held as the text that its number
    /// formats to.
    Decimal(NumberText),
    /// Any other cell: empty, boolean, date, duration or error.
    Other,
}

/// Trimmed text, or nothing when that is empty.
pub open spec fn trimmed_text(s: Seq<char>) -> Option<Seq<char>> {
    if trim(s).len() > 0 {
        Some(trim(s))
    } else {
        None
    }
}

/// The text of a cell: trimmed text when non-empty, the decimal text of an
/// integer, the text of another number, and nothing otherwise.
pub open spec fn cell_text(v: CellValue) -> Option<Seq<char>> {
    match v {
        CellValue::Text(s) => trimmed_text(s@),
        CellValue::Int(i) => Some(decimal_text(i as int)),
        CellValue::Decimal(n) => Some(n@),
        CellValue::Other => None,
    }
}

/// A status cell marks its row active unless its text is `D` (deleted),
/// `X` (marked for deletion) or the broken bar `¦` (reinstated only in a
/// later revision).
pub open spec fn status_active(v: CellValue) -> bool {
    match cell_text(v) {
        Some(t) => !(t == seq!['D'] || t == seq!['X'] || t == seq!['\u{A6}']),
        None => true,
    }
}

/// The text of a cell, if it holds any. A number cell always has text;
/// text, when there is any, is non-empty and neither begins nor ends with
/// whitespace.
pub fn cell(data: &CellValue) -> (r: Option<String>)
    ensures
        opt_view(r) == cell_text(*data),
        (data is Int || data is Decimal) ==> r is Some,
        r matches Some(t) ==> number_text_ok(t@),
{
    match data {
        CellValue::Text(s) => {
            let t = trim_str(s.as_str());
            proof {
                lemma_trim_idempotent(s@);
            }
            if t.as_str().is_empty() {
                None
            } else {
                Some(t)
            }
        },
        CellValue::Int(i) => {
            let t = decimal_string(*i);
            proof {
                lemma_decimal_text_trimmed(*i as int);
            }
            Some(t)
        },
        CellValue::Decimal(n) => Some(n.as_str().to_owned()),
        CellValue::Other => None,
    }
}

/// Whether a row with this status cell is active.
pub fn is_active(status_cell: &CellValue) -> (r: bool)
    ensures
        r == status_active(*status_cell),
        !r <==> (cell_text(*status_cell) == Some(seq!['D']) || cell_text(*status_cell) == Some(
            seq!['X'],
        ) || cell_text(*status_cell) == Some(seq!['\u{A6}'])),
{
    match cell(status_cell) {
        Some(t) => !(is_single_char(t.as_str(), 'D') || is_single_char(t.as_str(), 'X')
            || is_single_char(t.as_str(), '\u{A6}')),
        None => true,
    }
}

/// A status cell makes its row inactive exactly when its trimmed text is
/// `D`, `X` or the broken bar U+00A6; any other text (such as `#`, `+`,
/// `=` or `|`), and a cell without text, leaves the row active.
pub proof fn lemma_status_active_exactly(v: CellValue)
    ensures
        !status_active(v) <==> (cell_text(v) == Some(seq!['D']) || cell_text(v) == Some(seq!['X'])
            || cell_text(v) == Some(seq!['\u{A6}'])),
        cell_text(v) is None ==> status_active(v),
        (cell_text(v) == Some(seq!['#']) || cell_text(v) == Some(seq!['+']) || cell_text(v) == Some(
            seq!['=']) || cell_text(v) == Some(seq!['|'])) ==> status_active(v),
{
    if cell_text(v) == Some(seq!['#']) {
        assert(seq!['#'] != seq!['D']) by { assert(seq!['#'][0] != seq!['D'][0]); }
        assert(seq!['#'] != seq!['X']) by { assert(seq!['#'][0] != seq!['X'][0]); }
        assert(seq!['#'] != seq!['\u{A6}']) by { assert(seq!['#'][0] != seq!['\u{A6}'][0]); }
    }
    if cell_text(v) == Some(seq!['+']) {
        assert(seq!['+'] != seq!['D']) by { assert(seq!['+'][0] != seq!['D'][0]); }
        assert(seq!['+'] != seq!['X']) by { assert(seq!['+'][0] != seq!['X'][0]); }
        assert(seq!['+'] != seq!['\u{A6}']) by { assert(seq!['+'][0] != seq!['\u{A6}'][0]); }
    }
    if cell_text(v) == Some(seq!['=']) {
        assert(seq!['='] != seq!['D']) by { assert(seq!['='][0] != seq!['D'][0]); }
        assert(seq!['='] != seq!['X']) by { assert(seq!['='][0] != seq!['X'][0]); }
        assert(seq!['='] != seq!['\u{A6}']) by { assert(seq!['='][0] != seq!['\u{A6}'][0]); }
    }
    if cell_text(v) == Some(seq!['|']) {
        assert(seq!['|'] != seq!['D']) by { assert(seq!['|'][0] != seq!['D'][0]); }
        assert(seq!['|'] != seq!['X']) by { assert(seq!['|'][0] != seq!['X'][0]); }
        assert(seq!['|'] != seq!['\u{A6}']) by { assert(seq!['|'][0] != seq!['\u{A6}'][0]); }
    }
}

} // verus!
