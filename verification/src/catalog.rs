//! The catalogue of units read from the worksheets, with lookup by code.
use vstd::prelude::*;
use vstd::string::*;
use crate::records::{
    codes_distinct, codes_of, in_annex_i, in_annex_ii, lemma_parsed_codes_complete,
    lemma_parsed_codes_distinct, parse, parsed, records_view, Record, RecordView,
};
use crate::sheet::CellValue;
use crate::text::{ascii_upper_seq, ascii_uppercase, opt_view};

verus! {

/// What `format!("{:?}", s)` gives for a string: its Rust debug text.
pub uninterp spec fn debug_text_of(s: Seq<char>) -> Seq<char>;

/// Calls `<str as Debug>::fmt` through `format!`. Claimed: the result is
/// the named debug text of the argument, and nothing more.
#[verifier::external_body]
fn debug_text(s: &str) -> (r: String)
    ensures
        r@ == debug_text_of(s@),
{
    format!("{:?}", s)
}

/// `r` is the position of the first key equal to `key`, or `None` when no
/// key equals it.
pub open spec fn first_match(keys: Seq<Seq<char>>, key: Seq<char>, r: Option<int>) -> bool {
    match r {
        Some(i) => 0 <= i < keys.len() && keys[i] == key && forall|j: int|
            0 <= j < i ==> keys[j] != key,
        None => forall|j: int| 0 <= j < keys.len() ==> keys[j] != key,
    }
}

/// The codes of the records, upper-cased in ASCII.
pub open spec fn upper_codes(t: Seq<RecordView>) -> Seq<Seq<char>> {
    codes_of(t).map_values(|c: Seq<char>| ascii_upper_seq(c))
}

/// The characters of an optional string slice.
pub open spec fn opt_str_view(o: Option<&str>) -> Option<Seq<char>> {
    match o {
        Some(s) => Some(s@),
        None => None,
    }
}

fn as_opt_str<'a>(o: &'a Option<String>) -> (r: Option<&'a str>)
    ensures
        opt_str_view(r) == opt_view(*o),
{
    match o {
        Some(s) => Some(s.as_str()),
        None => None,
    }
}

/// Every active unit, read from the worksheets, in source order.
pub struct UnitTable {
    records: Vec<Record>,
}

impl View for UnitTable {
    type V = Seq<RecordView>;

    closed spec fn view(&self) -> Seq<RecordView> {
        records_view(self.records@)
    }
}

impl UnitTable {
    /// The table is well formed: no two units share a code.
    pub open spec fn wf(&self) -> bool {
        codes_distinct(self@)
    }

    /// Builds the table from the rows of the Annex I worksheet and of the
    /// Annex II & Annex III worksheet, as `parse` reads them.
    pub fn from_sheets(annex_i: &Vec<Vec<CellValue>>, annex_ii_iii: &Vec<Vec<CellValue>>) -> (r:
        UnitTable)
        ensures
            r@ == parsed(annex_i@, annex_ii_iii@),
            r.wf(),
    {
        let records = parse(annex_i, annex_ii_iii);
        proof {
            lemma_parsed_codes_distinct(annex_i@, annex_ii_iii@);
        }
        UnitTable { records }
    }

    /// The number of units.
    pub fn len(&self) -> (r: usize)
        ensures
            r == self@.len(),
    {
        self.records.len()
    }

    /// The unit records, in source order.
    pub fn records(&self) -> (r: &Vec<Record>)
        ensures
            records_view(r@) == self@,
    {
        &self.records
    }

    /// Every unit, in source order (Annex I first, then Annex II/III
    /// additions).
    pub fn all(&self) -> (r: Vec<UnitOfMeasure>)
        ensures
            r@.len() == self@.len(),
            forall|i: int| 0 <= i < r@.len() ==> (#[trigger] r@[i]).index() == i,
    {
        let mut out: Vec<UnitOfMeasure> = Vec::new();
        let mut k: usize = 0;
        while k < self.records.len()
            invariant
                k <= self.records@.len(),
                out@.len() == k,
                forall|i: int| 0 <= i < k ==> (#[trigger] out@[i]).index() == i,
            decreases self.records@.len() - k,
        {
            out.push(UnitOfMeasure { index: k });
            k = k + 1;
        }
        out
    }

    fn find_code(&self, code: &str) -> (r: Option<usize>)
        ensures
            first_match(
                codes_of(self@),
                code@,
                match r {
                    Some(i) => Some(i as int),
                    None => None,
                },
            ),
    {
        let key = code.to_owned();
        let mut k: usize = 0;
        while k < self.records.len()
            invariant
                k <= self.records@.len(),
                key@ == code@,
                forall|j: int| 0 <= j < k ==> codes_of(self@)[j] != code@,
            decreases self.records@.len() - k,
        {
            assert(codes_of(self@)[k as int] == self.records@[k as int].code@);
            if self.records[k].code == key {
                return Some(k);
            }
            k = k + 1;
        }
        None
    }

    fn find_code_ignore_case(&self, code: &str) -> (r: Option<usize>)
        ensures
            first_match(
                upper_codes(self@),
                ascii_upper_seq(code@),
                match r {
                    Some(i) => Some(i as int),
                    None => None,
                },
            ),
    {
        let key = ascii_uppercase(code);
        let mut k: usize = 0;
        while k < self.records.len()
            invariant
                k <= self.records@.len(),
                key@ == ascii_upper_seq(code@),
                forall|j: int| 0 <= j < k ==> upper_codes(self@)[j] != ascii_upper_seq(code@),
            decreases self.records@.len() - k,
        {
            assert(upper_codes(self@)[k as int] == ascii_upper_seq(self.records@[k as int].code@));
            let candidate = ascii_uppercase(self.records[k].code.as_str());
            if candidate == key {
                return Some(k);
            }
            k = k + 1;
        }
        None
    }
}

/// The position of an optional unit code.
pub open spec fn code_pos(r: Option<UnitCode>) -> Option<int> {
    match r {
        Some(c) => Some(c.index() as int),
        None => None,
    }
}

/// The position of an optional unit.
pub open spec fn unit_pos(r: Option<UnitOfMeasure>) -> Option<int> {
    match r {
        Some(u) => Some(u.index() as int),
        None => None,
    }
}

/// Error returned when a text is no known common code.
#[derive(Debug, Clone, PartialEq, Eq)]
pub struct UnknownCode(pub String);

impl UnknownCode {
    /// The error message: `unknown UN/CEFACT unit code: ` and the debug text
    /// of the code.
    pub fn message(&self) -> (r: String)
        ensures
            r@ == "unknown UN/CEFACT unit code: "@ + debug_text_of(self.0@),
    {
        let prefix = String::from_str("unknown UN/CEFACT unit code: ");
        prefix.concat(debug_text(self.0.as_str()).as_str())
    }
}

/// A common code of a unit in a `UnitTable`, identified by its position.
#[derive(Debug, Clone, Copy, PartialEq, Eq, Hash, PartialOrd, Ord, Structural)]
pub struct UnitCode {
    index: usize,
}

/// A unit of measure in a `UnitTable`, identified by its position.
#[derive(Debug, Clone, Copy, PartialEq, Eq, Hash, PartialOrd, Ord, Structural)]
pub struct UnitOfMeasure {
    index: usize,
}

/// All data of one unit, borrowed from its table.
#[derive(Debug, Clone, Copy, PartialEq, Eq)]
pub struct UnitInfo<'a> {
    /// Common code (for example `MTR`, `KGM`).
    pub code: &'a str,
    /// English unit name.
    pub name: &'a str,
    /// Unit symbol, if defined.
    pub symbol: Option<&'a str>,
    /// Physical quantity (Annex I only).
    pub quantity: Option<&'a str>,
    /// Sector or discipline (Annex I only).
    pub sector: Option<&'a str>,
    /// Informative conversion factor.
    pub conversion_factor: Option<&'a str>,
    /// Level or category code.
    pub level_category: Option<&'a str>,
    /// Description.
    pub description: Option<&'a str>,
}

impl UnitCode {
    /// The position of the code in its table.
    pub closed spec fn index(self) -> nat {
        self.index as nat
    }

    /// The unit of this code: the unit at the same position.
    pub closed spec fn unit(self) -> UnitOfMeasure {
        UnitOfMeasure { index: self.index }
    }

    /// The code as text.
    pub fn as_str<'a>(self, table: &'a UnitTable) -> (r: &'a str)
        requires
            self.index() < table@.len(),
        ensures
            r@ == table@[self.index() as int].code,
    {
        table.records[self.index].code.as_str()
    }

    /// The code as an owned string.
    pub fn to_string(self, table: &UnitTable) -> (r: String)
        requires
            self.index() < table@.len(),
        ensures
            r@ == table@[self.index() as int].code,
    {
        table.records[self.index].code.clone()
    }

    /// Looks up a code by its text (case-sensitive).
    pub fn from_code(table: &UnitTable, code: &str) -> (r: Option<UnitCode>)
        ensures
            first_match(codes_of(table@), code@, code_pos(r)),
    {
        match table.find_code(code) {
            Some(i) => Some(UnitCode { index: i }),
            None => None,
        }
    }

    /// Looks up a code by its text, ignoring ASCII case: the first code
    /// whose upper-case form equals that of `code`.
    pub fn from_code_ignore_case(table: &UnitTable, code: &str) -> (r: Option<UnitCode>)
        ensures
            first_match(upper_codes(table@), ascii_upper_seq(code@), code_pos(r)),
    {
        match table.find_code_ignore_case(code) {
            Some(i) => Some(UnitCode { index: i }),
            None => None,
        }
    }

    /// Parses a code (case-sensitive); an unknown text is returned in the
    /// error.
    pub fn from_str(table: &UnitTable, s: &str) -> (r: Result<UnitCode, UnknownCode>)
        ensures
            match r {
                Ok(c) => first_match(codes_of(table@), s@, Some(c.index() as int)),
                Err(e) => first_match(codes_of(table@), s@, None) && e.0@ == s@,
            },
    {
        match UnitCode::from_code(table, s) {
            Some(c) => Ok(c),
            None => Err(UnknownCode(s.to_owned())),
        }
    }

    /// Parses a code ignoring ASCII case; an unknown text is returned in
    /// the error.
    pub fn from_str_ignore_case(table: &UnitTable, s: &str) -> (r: Result<UnitCode, UnknownCode>)
        ensures
            match r {
                Ok(c) => first_match(upper_codes(table@), ascii_upper_seq(s@), Some(c.index() as int)),
                Err(e) => first_match(upper_codes(table@), ascii_upper_seq(s@), None) && e.0@
                    == s@,
            },
    {
        match UnitCode::from_code_ignore_case(table, s) {
            Some(c) => Ok(c),
            None => Err(UnknownCode(s.to_owned())),
        }
    }

    /// Same as `from_str`.
    pub fn try_from(table: &UnitTable, s: &str) -> (r: Result<UnitCode, UnknownCode>)
        ensures
            match r {
                Ok(c) => first_match(codes_of(table@), s@, Some(c.index() as int)),
                Err(e) => first_match(codes_of(table@), s@, None) && e.0@ == s@,
            },
    {
        UnitCode::from_str(table, s)
    }
}

impl UnitOfMeasure {
    /// The position of the unit in its table.
    pub closed spec fn index(self) -> nat {
        self.index as nat
    }

    /// The code of this unit: the code at the same position.
    pub closed spec fn code_spec(self) -> UnitCode {
        UnitCode { index: self.index }
    }

    /// All data of the unit.
    pub fn info<'a>(self, table: &'a UnitTable) -> (r: UnitInfo<'a>)
        requires
            self.index() < table@.len(),
        ensures
            r.code@ == table@[self.index() as int].code,
            r.name@ == table@[self.index() as int].name,
            opt_str_view(r.symbol) == table@[self.index() as int].symbol,
            opt_str_view(r.quantity) == table@[self.index() as int].quantity,
            opt_str_view(r.sector) == table@[self.index() as int].sector,
            opt_str_view(r.conversion_factor) == table@[self.index() as int].conversion_factor,
            opt_str_view(r.level_category) == table@[self.index() as int].level_category,
            opt_str_view(r.description) == table@[self.index() as int].description,
    {
        let rec = &table.records[self.index];
        UnitInfo {
            code: rec.code.as_str(),
            name: rec.name.as_str(),
            symbol: as_opt_str(&rec.symbol),
            quantity: as_opt_str(&rec.quantity),
            sector: as_opt_str(&rec.sector),
            conversion_factor: as_opt_str(&rec.conversion_factor),
            level_category: as_opt_str(&rec.level_category),
            description: as_opt_str(&rec.description),
        }
    }

    /// The common code.
    pub fn code<'a>(self, table: &'a UnitTable) -> (r: &'a str)
        requires
            self.index() < table@.len(),
        ensures
            r@ == table@[self.index() as int].code,
    {
        self.info(table).code
    }

    /// The English unit name.
    pub fn name<'a>(self, table: &'a UnitTable) -> (r: &'a str)
        requires
            self.index() < table@.len(),
        ensures
            r@ == table@[self.index() as int].name,
    {
        self.info(table).name
    }

    /// The unit symbol, if any.
    pub fn symbol<'a>(self, table: &'a UnitTable) -> (r: Option<&'a str>)
        requires
            self.index() < table@.len(),
        ensures
            opt_str_view(r) == table@[self.index() as int].symbol,
    {
        self.info(table).symbol
    }

    /// The physical quantity (Annex I only).
    pub fn quantity<'a>(self, table: &'a UnitTable) -> (r: Option<&'a str>)
        requires
            self.index() < table@.len(),
        ensures
            opt_str_view(r) == table@[self.index() as int].quantity,
    {
        self.info(table).quantity
    }

    /// The sector or discipline (Annex I only).
    pub fn sector<'a>(self, table: &'a UnitTable) -> (r: Option<&'a str>)
        requires
            self.index() < table@.len(),
        ensures
            opt_str_view(r) == table@[self.index() as int].sector,
    {
        self.info(table).sector
    }

    /// The informative conversion factor.
    pub fn conversion_factor<'a>(self, table: &'a UnitTable) -> (r: Option<&'a str>)
        requires
            self.index() < table@.len(),
        ensures
            opt_str_view(r) == table@[self.index() as int].conversion_factor,
    {
        self.info(table).conversion_factor
    }

    /// The level or category code.
    pub fn level_category<'a>(self, table: &'a UnitTable) -> (r: Option<&'a str>)
        requires
            self.index() < table@.len(),
        ensures
            opt_str_view(r) == table@[self.index() as int].level_category,
    {
        self.info(table).level_category
    }

    /// The description.
    pub fn description<'a>(self, table: &'a UnitTable) -> (r: Option<&'a str>)
        requires
            self.index() < table@.len(),
        ensures
            opt_str_view(r) == table@[self.index() as int].description,
    {
        self.info(table).description
    }

    /// The common code as an owned string.
    pub fn to_string(self, table: &UnitTable) -> (r: String)
        requires
            self.index() < table@.len(),
        ensures
            r@ == table@[self.index() as int].code,
    {
        table.records[self.index].code.clone()
    }

    /// The unit's code.
    pub fn unit_code(self) -> (r: UnitCode)
        ensures
            r == self.code_spec(),
            r.index() == self.index(),
    {
        UnitCode { index: self.index }
    }

    /// The unit of a code.
    pub fn from_unit_code(code: UnitCode) -> (r: UnitOfMeasure)
        ensures
            r == code.unit(),
            r.index() == code.index(),
    {
        UnitOfMeasure { index: code.index }
    }

    /// Looks up a unit by its common code (case-sensitive).
    pub fn from_code(table: &UnitTable, code: &str) -> (r: Option<UnitOfMeasure>)
        ensures
            first_match(codes_of(table@), code@, unit_pos(r)),
    {
        match UnitCode::from_code(table, code) {
            Some(c) => Some(UnitOfMeasure::from_unit_code(c)),
            None => None,
        }
    }

    /// Looks up a unit by its common code, ignoring ASCII case.
    pub fn from_code_ignore_case(table: &UnitTable, code: &str) -> (r: Option<UnitOfMeasure>)
        ensures
            first_match(upper_codes(table@), ascii_upper_seq(code@), unit_pos(r)),
    {
        match UnitCode::from_code_ignore_case(table, code) {
            Some(c) => Some(UnitOfMeasure::from_unit_code(c)),
            None => None,
        }
    }

    /// Parses a unit from its code (case-sensitive); an unknown text is
    /// returned in the error.
    pub fn from_str(table: &UnitTable, s: &str) -> (r: Result<UnitOfMeasure, UnknownCode>)
        ensures
            match r {
                Ok(u) => first_match(codes_of(table@), s@, Some(u.index() as int)),
                Err(e) => first_match(codes_of(table@), s@, None) && e.0@ == s@,
            },
    {
        match UnitOfMeasure::from_code(table, s) {
            Some(u) => Ok(u),
            None => Err(UnknownCode(s.to_owned())),
        }
    }

    /// Parses a unit from its code ignoring ASCII case; an unknown text is
    /// returned in the error.
    pub fn from_str_ignore_case(table: &UnitTable, s: &str) -> (r: Result<
        UnitOfMeasure,
        UnknownCode,
    >)
        ensures
            match r {
                Ok(u) => first_match(upper_codes(table@), ascii_upper_seq(s@), Some(u.index() as int)),
                Err(e) => first_match(upper_codes(table@), ascii_upper_seq(s@), None) && e.0@
                    == s@,
            },
    {
        match UnitOfMeasure::from_code_ignore_case(table, s) {
            Some(u) => Ok(u),
            None => Err(UnknownCode(s.to_owned())),
        }
    }

    /// Same as `from_str`.
    pub fn try_from(table: &UnitTable, s: &str) -> (r: Result<UnitOfMeasure, UnknownCode>)
        ensures
            match r {
                Ok(u) => first_match(codes_of(table@), s@, Some(u.index() as int)),
                Err(e) => first_match(codes_of(table@), s@, None) && e.0@ == s@,
            },
    {
        UnitOfMeasure::from_str(table, s)
    }
}


/// A lookup has one answer: two results that both are the first match of
/// the same key are equal.
pub proof fn lemma_first_match_unique(
    keys: Seq<Seq<char>>,
    key: Seq<char>,
    r1: Option<int>,
    r2: Option<int>,
)
    requires
        first_match(keys, key, r1),
        first_match(keys, key, r2),
    ensures
        r1 == r2,
{
    match (r1, r2) {
        (Some(i), Some(j)) => {
            if i < j {
                assert(keys[i] != key);
            } else if j < i {
                assert(keys[j] != key);
            }
        },
        (Some(i), None) => {
            assert(keys[i] != key);
        },
        (None, Some(j)) => {
            assert(keys[j] != key);
        },
        (None, None) => {},
    }
}

/// Looking up the code of a unit in a well-formed table finds that very
/// unit: `from_code(table, u.code(table))` is `Some(u)`.
pub proof fn lemma_lookup_of_own_code(table: UnitTable, i: int, r: Option<int>)
    requires
        table.wf(),
        0 <= i < table@.len(),
        first_match(codes_of(table@), table@[i].code, r),
    ensures
        r == Some(i),
{
    assert forall|j: int| 0 <= j < i implies codes_of(table@)[j] != table@[i].code by {
        assert(codes_of(table@)[j] == table@[j].code);
    }
    assert(first_match(codes_of(table@), table@[i].code, Some(i)));
    lemma_first_match_unique(codes_of(table@), table@[i].code, r, Some(i));
}

/// Looking up the code of a unit while ignoring ASCII case always finds a
/// unit: that unit or an earlier one whose code has the same upper-case
/// form.
pub proof fn lemma_ignore_case_lookup_of_own_code(table: UnitTable, i: int, r: Option<int>)
    requires
        0 <= i < table@.len(),
        first_match(upper_codes(table@), ascii_upper_seq(table@[i].code), r),
    ensures
        r matches Some(j) && j <= i && ascii_upper_seq(table@[j].code) == ascii_upper_seq(
            table@[i].code,
        ),
{
    assert(upper_codes(table@)[i] == ascii_upper_seq(table@[i].code));
    match r {
        Some(j) => {
            assert(upper_codes(table@)[j] == ascii_upper_seq(table@[j].code));
        },
        None => {},
    }
}

/// A code read from the worksheets is found exactly when an active row of
/// Annex I or of Annex II/III carries it.
pub proof fn lemma_lookup_finds_active_codes(
    annex_i: Seq<Vec<CellValue>>,
    annex_ii: Seq<Vec<CellValue>>,
    code: Seq<char>,
    r: Option<int>,
)
    requires
        first_match(codes_of(parsed(annex_i, annex_ii)), code, r),
    ensures
        r is Some <==> (in_annex_i(annex_i, code) || in_annex_ii(annex_ii, code)),
{
    lemma_parsed_codes_complete(annex_i, annex_ii, code);
    let keys = codes_of(parsed(annex_i, annex_ii));
    if keys.contains(code) {
        let i = choose|i: int| 0 <= i < keys.len() && keys[i] == code;
        assert(keys[i] == code);
    }
}

/// Two units are the same exactly when their positions are.
pub proof fn lemma_unit_identity(a: UnitOfMeasure, b: UnitOfMeasure)
    ensures
        (a == b) <==> (a.index() == b.index()),
{
}

/// Two codes are the same exactly when their positions are.
pub proof fn lemma_code_identity(a: UnitCode, b: UnitCode)
    ensures
        (a == b) <==> (a.index() == b.index()),
{
}

/// A unit and its code stand at the same position, and converting either
/// way and back gives the value again: `from_unit_code(u.unit_code()) == u`
/// and `from_unit_code(c).unit_code() == c`.
pub proof fn lemma_unit_code_roundtrip(u: UnitOfMeasure, c: UnitCode)
    ensures
        u.code_spec().index() == u.index(),
        c.unit().index() == c.index(),
        u.code_spec().unit() == u,
        c.unit().code_spec() == c,
{
}

/// Codes that differ also differ once upper-cased in ASCII.
pub open spec fn upper_codes_distinct(t: Seq<RecordView>) -> bool {
    forall|i: int, j: int|
        0 <= i < j < t.len() ==> ascii_upper_seq((#[trigger] t[i]).code) != ascii_upper_seq(
            (#[trigger] t[j]).code,
        )
}

/// In a well-formed table, a case-sensitive lookup of `s` finds unit `i`
/// exactly when the code of unit `i` is `s`.
pub proof fn lemma_lookup_exact(table: UnitTable, s: Seq<char>, r: Option<int>, i: int)
    requires
        table.wf(),
        0 <= i < table@.len(),
        first_match(codes_of(table@), s, r),
    ensures
        (r == Some(i)) <==> (table@[i].code == s),
{
    assert(codes_of(table@)[i] == table@[i].code);
    if table@[i].code == s {
        lemma_lookup_of_own_code(table, i, r);
    }
}

/// In a table whose codes differ even ignoring ASCII case, a lookup of `s`
/// that ignores case finds unit `i` exactly when the upper-case forms of
/// `s` and of the code of unit `i` are equal.
pub proof fn lemma_lookup_ignore_case_exact(table: UnitTable, s: Seq<char>, r: Option<int>, i: int)
    requires
        upper_codes_distinct(table@),
        0 <= i < table@.len(),
        first_match(upper_codes(table@), ascii_upper_seq(s), r),
    ensures
        (r == Some(i)) <==> (ascii_upper_seq(table@[i].code) == ascii_upper_seq(s)),
{
    let keys = upper_codes(table@);
    assert(keys[i] == ascii_upper_seq(table@[i].code));
    if ascii_upper_seq(table@[i].code) == ascii_upper_seq(s) {
        assert forall|j: int| 0 <= j < i implies keys[j] != ascii_upper_seq(s) by {
            assert(keys[j] == ascii_upper_seq(table@[j].code));
        }
        assert(first_match(keys, ascii_upper_seq(s), Some(i)));
        lemma_first_match_unique(keys, ascii_upper_seq(s), r, Some(i));
    }
}

/// Codes that differ even ignoring ASCII case differ.
pub proof fn lemma_upper_distinct_is_wf(table: UnitTable)
    requires
        upper_codes_distinct(table@),
    ensures
        table.wf(),
{
    assert forall|i: int, j: int| 0 <= i < j < table@.len() implies (#[trigger] table@[i]).code
        != (#[trigger] table@[j]).code by {
        if table@[i].code == table@[j].code {
            assert(ascii_upper_seq(table@[i].code) == ascii_upper_seq(table@[j].code));
        }
    }
}

} // verus!
