//! Reading unit records from the two annex worksheets.
use vstd::prelude::*;
use crate::naming::{
    assign_unique_names, assigned, count_rule_name, lemma_assigned_agrees_with_count_rule, code_suffix, code_suffix_pascal, code_variant,
    code_variant_name, lemma_assigned, lemma_code_variant_name_is_identifier_start,
    lemma_pascal_name_is_identifier_start, pascal, pascal_name, starts_with_digit,
};
use crate::normalize::{normalize_text, normalized};
use crate::sheet::{
    cell, cell_text, is_active, lemma_status_active_exactly, status_active, CellValue,
};
use crate::text::{clone_opt, opt_view, strings_view};

verus! {

/// One unit of measure as read from the worksheets.
#[derive(Debug, PartialEq, Eq)]
pub struct Record {
    /// Name of the unit's variant in the unit enum.
    pub variant: String,
    /// Name of the code's variant in the code enum.
    pub code_variant: String,
    /// Common code, such as `KGM`.
    pub code: String,
    /// English unit name.
    pub name: String,
    /// Unit symbol.
    pub symbol: Option<String>,
    /// Physical quantity (Annex I only).
    pub quantity: Option<String>,
    /// Sector or discipline (Annex I only).
    pub sector: Option<String>,
    /// Informative conversion factor.
    pub conversion_factor: Option<String>,
    /// Level or category code.
    pub level_category: Option<String>,
    /// Description.
    pub description: Option<String>,
}

/// The text content of a `Record`.
pub struct RecordView {
    pub variant: Seq<char>,
    pub code_variant: Seq<char>,
    pub code: Seq<char>,
    pub name: Seq<char>,
    pub symbol: Option<Seq<char>>,
    pub quantity: Option<Seq<char>>,
    pub sector: Option<Seq<char>>,
    pub conversion_factor: Option<Seq<char>>,
    pub level_category: Option<Seq<char>>,
    pub description: Option<Seq<char>>,
}

impl View for Record {
    type V = RecordView;

    open spec fn view(&self) -> RecordView {
        RecordView {
            variant: self.variant@,
            code_variant: self.code_variant@,
            code: self.code@,
            name: self.name@,
            symbol: opt_view(self.symbol),
            quantity: opt_view(self.quantity),
            sector: opt_view(self.sector),
            conversion_factor: opt_view(self.conversion_factor),
            level_category: opt_view(self.level_category),
            description: opt_view(self.description),
        }
    }
}

/// The views of a sequence of records.
pub open spec fn records_view(v: Seq<Record>) -> Seq<RecordView> {
    v.map_values(|r: Record| r@)
}

/// The codes of a sequence of records.
pub open spec fn codes_of(v: Seq<RecordView>) -> Seq<Seq<char>> {
    v.map_values(|r: RecordView| r.code)
}

/// The normalised text of column `i` of a row, if the column exists and
/// holds text.
pub open spec fn field(row: Seq<CellValue>, i: int) -> Option<Seq<char>> {
    if 0 <= i < row.len() {
        match cell_text(row[i]) {
            Some(t) => Some(normalized(t)),
            None => None,
        }
    } else {
        None
    }
}

/// Whether the status in column `i` of a row marks the row active; a
/// missing column counts as an empty, active status.
pub open spec fn row_active(row: Seq<CellValue>, i: int) -> bool {
    if 0 <= i < row.len() {
        status_active(row[i])
    } else {
        true
    }
}

/// Text, or the empty text where there is none.
pub open spec fn or_empty(o: Option<Seq<char>>) -> Seq<char> {
    match o {
        Some(t) => t,
        None => Seq::empty(),
    }
}

/// The record that an Annex I row with this code gives (variant names not
/// yet assigned). Columns: 1 sector, 3 quantity, 4 level/category,
/// 7 name, 8 conversion factor, 9 symbol, 10 description.
pub open spec fn annex_i_entry(row: Seq<CellValue>, code: Seq<char>) -> RecordView {
    RecordView {
        variant: Seq::empty(),
        code_variant: Seq::empty(),
        code: code,
        name: or_empty(field(row, 7)),
        symbol: field(row, 9),
        quantity: field(row, 3),
        sector: field(row, 1),
        conversion_factor: field(row, 8),
        level_category: field(row, 4),
        description: field(row, 10),
    }
}

/// The record that an Annex II/III row with this code gives (variant names
/// not yet assigned). Columns: 2 name, 3 description, 4 level/category,
/// 5 symbol, 6 conversion factor.
pub open spec fn annex_ii_entry(row: Seq<CellValue>, code: Seq<char>) -> RecordView {
    RecordView {
        variant: Seq::empty(),
        code_variant: Seq::empty(),
        code: code,
        name: or_empty(field(row, 2)),
        symbol: field(row, 5),
        quantity: None,
        sector: None,
        conversion_factor: field(row, 6),
        level_category: field(row, 4),
        description: field(row, 3),
    }
}

/// The code of an Annex I row that counts: the row is active (status in
/// column 5) and has a code (column 6).
pub open spec fn annex_i_code(row: Seq<CellValue>) -> Option<Seq<char>> {
    if row_active(row, 5) {
        field(row, 6)
    } else {
        None
    }
}

/// The code of an Annex II/III row that counts: the row is active (status
/// in column 0) and has a code (column 1).
pub open spec fn annex_ii_code(row: Seq<CellValue>) -> Option<Seq<char>> {
    if row_active(row, 0) {
        field(row, 1)
    } else {
        None
    }
}

/// Records read from rows `1..n` of Annex I (row 0 is the header): each
/// row whose code counts and was not seen before adds its record.
pub open spec fn collect_annex_i(rows: Seq<Vec<CellValue>>, n: int) -> Seq<RecordView>
    decreases n,
{
    if n <= 1 || n > rows.len() {
        Seq::empty()
    } else {
        let prev = collect_annex_i(rows, n - 1);
        match annex_i_code(rows[n - 1]@) {
            Some(code) => if codes_of(prev).contains(code) {
                prev
            } else {
                prev.push(annex_i_entry(rows[n - 1]@, code))
            },
            None => prev,
        }
    }
}

/// `base` followed by the records read from rows `1..n` of Annex II/III:
/// each row whose code counts and was not seen before adds its record.
pub open spec fn collect_annex_ii(
    rows: Seq<Vec<CellValue>>,
    n: int,
    base: Seq<RecordView>,
) -> Seq<RecordView>
    decreases n,
{
    if n <= 1 || n > rows.len() {
        base
    } else {
        let prev = collect_annex_ii(rows, n - 1, base);
        match annex_ii_code(rows[n - 1]@) {
            Some(code) => if codes_of(prev).contains(code) {
                prev
            } else {
                prev.push(annex_ii_entry(rows[n - 1]@, code))
            },
            None => prev,
        }
    }
}

/// The description of the first of rows `1..n` of Annex II/III whose code
/// counts, equals `code`, and that has a description.
pub open spec fn first_description(rows: Seq<Vec<CellValue>>, n: int, code: Seq<char>) -> Option<
    Seq<char>,
>
    decreases n,
{
    if n <= 1 || n > rows.len() {
        None
    } else {
        match first_description(rows, n - 1, code) {
            Some(d) => Some(d),
            None => if annex_ii_code(rows[n - 1]@) == Some(code) {
                field(rows[n - 1]@, 3)
            } else {
                None
            },
        }
    }
}

/// All records in source order, before descriptions are filled in and
/// variant names assigned.
pub open spec fn entries(annex_i: Seq<Vec<CellValue>>, annex_ii: Seq<Vec<CellValue>>) -> Seq<
    RecordView,
> {
    collect_annex_ii(annex_ii, annex_ii.len() as int, collect_annex_i(annex_i, annex_i.len() as int))
}

/// The base variant names of the entries.
pub open spec fn base_names(es: Seq<RecordView>) -> Seq<Seq<char>> {
    es.map_values(|e: RecordView| pascal_name(e.name, e.code))
}

/// The base code variant names of the entries.
pub open spec fn code_base_names(es: Seq<RecordView>) -> Seq<Seq<char>> {
    es.map_values(|e: RecordView| code_variant_name(e.code))
}

/// The code suffixes of the entries.
pub open spec fn code_suffixes(es: Seq<RecordView>) -> Seq<Seq<char>> {
    es.map_values(|e: RecordView| code_suffix(e.code))
}

/// Record `i` as the parser returns it: its description filled from Annex
/// II/III where it had none, its variant names assigned. A record keeps its
/// base name when no earlier record took it; otherwise its code suffix (or
/// `_`) is appended as often as needed to make the name new. Where counting
/// base names already gives distinct names these are the same names
/// (`lemma_parsed_variants_agree_with_count_rule`).
pub open spec fn finished(
    es: Seq<RecordView>,
    i: int,
    annex_ii: Seq<Vec<CellValue>>,
) -> RecordView {
    let e = es[i];
    RecordView {
        variant: assigned(base_names(es), code_suffixes(es), es.len() as int)[i],
        code_variant: assigned(code_base_names(es), code_suffixes(es), es.len() as int)[i],
        description: if e.description is Some {
            e.description
        } else {
            first_description(annex_ii, annex_ii.len() as int, e.code)
        },
        ..e
    }
}

/// The records that `parse` returns for the two worksheets.
pub open spec fn parsed(annex_i: Seq<Vec<CellValue>>, annex_ii: Seq<Vec<CellValue>>) -> Seq<
    RecordView,
> {
    let es = entries(annex_i, annex_ii);
    Seq::new(es.len(), |i: int| finished(es, i, annex_ii))
}

/// Text that a field can hold: non-empty, unchanged when normalised again,
/// and without the ohm sign.
pub open spec fn normal_text(t: Seq<char>) -> bool {
    t.len() > 0 && normalized(t) == t && !t.contains('\u{2126}')
}

/// An optional field holds `normal_text` when it holds anything.
pub open spec fn opt_normal(o: Option<Seq<char>>) -> bool {
    o matches Some(t) ==> normal_text(t)
}

/// Every text of a record is as a field holds it: the code always, the
/// name unless it is empty, and every optional field that is present.
pub open spec fn record_text_ok(r: RecordView) -> bool {
    &&& normal_text(r.code)
    &&& r.name.len() == 0 || normal_text(r.name)
    &&& opt_normal(r.symbol)
    &&& opt_normal(r.quantity)
    &&& opt_normal(r.sector)
    &&& opt_normal(r.conversion_factor)
    &&& opt_normal(r.level_category)
    &&& opt_normal(r.description)
}

/// The normalised text of column `i` of a row.
fn row_field(row: &Vec<CellValue>, i: usize) -> (r: Option<String>)
    ensures
        opt_view(r) == field(row@, i as int),
        opt_normal(opt_view(r)),
{
    if i < row.len() {
        match cell(&row[i]) {
            Some(t) => Some(normalize_text(t)),
            None => None,
        }
    } else {
        None
    }
}

/// Whether the status in column `i` marks the row active.
fn row_is_active(row: &Vec<CellValue>, i: usize) -> (r: bool)
    ensures
        r == row_active(row@, i as int),
{
    if i < row.len() {
        is_active(&row[i])
    } else {
        true
    }
}

fn has_code(records: &Vec<Record>, code: &String) -> (r: bool)
    ensures
        r == codes_of(records_view(records@)).contains(code@),
{
    let mut k: usize = 0;
    while k < records.len()
        invariant
            k <= records@.len(),
            forall|j: int| 0 <= j < k ==> records@[j].code@ != code@,
        decreases records@.len() - k,
    {
        if records[k].code == *code {
            assert(codes_of(records_view(records@))[k as int] == code@);
            return true;
        }
        k = k + 1;
    }
    assert(!codes_of(records_view(records@)).contains(code@)) by {
        if codes_of(records_view(records@)).contains(code@) {
            let j = choose|j: int|
                0 <= j < codes_of(records_view(records@)).len()
                    && codes_of(records_view(records@))[j] == code@;
            assert(records@[j].code@ == code@);
        }
    }
    false
}

fn find_description(supplement: &Vec<(String, String)>, code: &String) -> (r: Option<String>)
    ensures
        r matches Some(d) ==> exists|j: int|
            0 <= j < supplement@.len() && #[trigger] supplement@[j].0@ == code@
                && supplement@[j].1@ == d@,
        r is None ==> forall|j: int| 0 <= j < supplement@.len() ==> #[trigger] supplement@[j].0@ != code@,
{
    let mut k: usize = 0;
    while k < supplement.len()
        invariant
            k <= supplement@.len(),
            forall|j: int| 0 <= j < k ==> #[trigger] supplement@[j].0@ != code@,
        decreases supplement@.len() - k,
    {
        if supplement[k].0 == *code {
            return Some(supplement[k].1.clone());
        }
        k = k + 1;
    }
    None
}


fn annex_i_record(row: &Vec<CellValue>, code: String) -> (r: Record)
    requires
        normal_text(code@),
    ensures
        record_text_ok(r@),
        r@ == annex_i_entry(row@, code@),
{
    let name = match row_field(row, 7) {
        Some(s) => s,
        None => String::new(),
    };
    Record {
        variant: String::new(),
        code_variant: String::new(),
        code: code,
        name: name,
        symbol: row_field(row, 9),
        quantity: row_field(row, 3),
        sector: row_field(row, 1),
        conversion_factor: row_field(row, 8),
        level_category: row_field(row, 4),
        description: row_field(row, 10),
    }
}

fn annex_ii_record(row: &Vec<CellValue>, code: String) -> (r: Record)
    requires
        normal_text(code@),
    ensures
        record_text_ok(r@),
        r@ == annex_ii_entry(row@, code@),
{
    let name = match row_field(row, 2) {
        Some(s) => s,
        None => String::new(),
    };
    Record {
        variant: String::new(),
        code_variant: String::new(),
        code: code,
        name: name,
        symbol: row_field(row, 5),
        quantity: None,
        sector: None,
        conversion_factor: row_field(row, 6),
        level_category: row_field(row, 4),
        description: row_field(row, 3),
    }
}

/// Records read from Annex I, rows after the header, in order.
fn read_annex_i(rows: &Vec<Vec<CellValue>>) -> (r: Vec<Record>)
    ensures
        records_view(r@) == collect_annex_i(rows@, rows@.len() as int),
        forall|j: int| 0 <= j < r@.len() ==> record_text_ok((#[trigger] r@[j])@),
{
    let mut records: Vec<Record> = Vec::new();
    let mut i: usize = 1;
    while i < rows.len()
        invariant
            1 <= i,
            i <= rows@.len() || rows@.len() == 0,
            records_view(records@) == collect_annex_i(rows@, i as int),
            forall|j: int| 0 <= j < records@.len() ==> record_text_ok((#[trigger] records@[j])@),
        decreases rows@.len() - i,
    {
        let row = &rows[i];
        let ghost prev = records@;
        if row_is_active(row, 5) {
            match row_field(row, 6) {
                Some(code) => {
                    if !has_code(&records, &code) {
                        let rec = annex_i_record(row, code);
                        records.push(rec);
                        assert(records_view(records@) =~= records_view(prev).push(rec@));
                    }
                },
                None => {},
            }
        }
        assert(records_view(records@) == collect_annex_i(rows@, i + 1));
        i = i + 1;
    }
    records
}

/// What the description supplement holds after rows `1..n` of Annex
/// II/III: each pair is a code and its first description, and every code
/// that has a first description has a pair.
spec fn supplement_ok(supp: Seq<(String, String)>, rows: Seq<Vec<CellValue>>, n: int) -> bool {
    &&& forall|j: int|
        0 <= j < supp.len() ==> first_description(rows, n, (#[trigger] supp[j]).0@) == Some(
            supp[j].1@,
        )
    &&& forall|c: Seq<char>|
        (#[trigger] first_description(rows, n, c)) is Some ==> exists|j: int|
            0 <= j < supp.len() && (#[trigger] supp[j]).0@ == c
}

/// Appends the records of Annex II/III with codes not seen before, and
/// returns each code's first description there.
fn read_annex_ii(rows: &Vec<Vec<CellValue>>, records: &mut Vec<Record>) -> (supplement: Vec<
    (String, String),
>)
    requires
        forall|j: int| 0 <= j < old(records)@.len() ==> record_text_ok((#[trigger] old(records)@[j])@),
    ensures
        forall|j: int| 0 <= j < final(records)@.len() ==> record_text_ok((#[trigger] final(records)@[j])@),
        forall|j: int| 0 <= j < supplement@.len() ==> normal_text((#[trigger] supplement@[j]).1@),
        records_view(final(records)@) == collect_annex_ii(
            rows@,
            rows@.len() as int,
            records_view(old(records)@),
        ),
        supplement_ok(supplement@, rows@, rows@.len() as int),
{
    let ghost base = records_view(records@);
    let mut supplement: Vec<(String, String)> = Vec::new();
    let mut i: usize = 1;
    while i < rows.len()
        invariant
            1 <= i,
            i <= rows@.len() || rows@.len() == 0,
            records_view(records@) == collect_annex_ii(rows@, i as int, base),
            supplement_ok(supplement@, rows@, i as int),
            forall|j: int| 0 <= j < records@.len() ==> record_text_ok((#[trigger] records@[j])@),
            forall|j: int| 0 <= j < supplement@.len() ==> normal_text((#[trigger] supplement@[j]).1@),
        decreases rows@.len() - i,
    {
        let row = &rows[i];
        let ghost prev = records@;
        let ghost prev_supp = supplement@;
        if row_is_active(row, 0) {
            match row_field(row, 1) {
                Some(code) => {
                    match row_field(row, 3) {
                        Some(desc) => {
                            if find_description(&supplement, &code).is_none() {
                                supplement.push((code.clone(), desc));
                            }
                        },
                        None => {},
                    }
                    if !has_code(records, &code) {
                        let rec = annex_ii_record(row, code);
                        records.push(rec);
                        assert(records_view(records@) =~= records_view(prev).push(rec@));
                    }
                },
                None => {},
            }
        }
        assert(records_view(records@) == collect_annex_ii(rows@, i + 1, base));
        assert forall|j: int| 0 <= j < supplement@.len() implies first_description(
            rows@,
            i + 1,
            (#[trigger] supplement@[j]).0@,
        ) == Some(supplement@[j].1@) by {
            if j < prev_supp.len() {
                assert(supplement@[j] == prev_supp[j]);
                assert(first_description(rows@, i as int, prev_supp[j].0@) == Some(
                    prev_supp[j].1@,
                ));
            } else {
                let c = supplement@[j].0@;
                if first_description(rows@, i as int, c) is Some {
                    let k = choose|k: int| 0 <= k < prev_supp.len() && (#[trigger] prev_supp[k]).0@ == c;
                    assert(prev_supp[k].0@ == c);
                }
            }
        }
        assert forall|c: Seq<char>|
            (#[trigger] first_description(rows@, i + 1, c)) is Some implies exists|j: int|
                0 <= j < supplement@.len() && (#[trigger] supplement@[j]).0@ == c by {
            if first_description(rows@, i as int, c) is Some {
                let k = choose|k: int| 0 <= k < prev_supp.len() && (#[trigger] prev_supp[k]).0@ == c;
                assert(supplement@[k] == prev_supp[k]);
            } else {
                assert(supplement@.len() > 0 && supplement@.last().0@ == c);
            }
        }
        i = i + 1;
    }
    supplement
}


/// Fills in missing descriptions and assigns the variant names.
fn finish(
    es: &Vec<Record>,
    annex_ii: &Vec<Vec<CellValue>>,
    supplement: &Vec<(String, String)>,
) -> (r: Vec<Record>)
    requires
        supplement_ok(supplement@, annex_ii@, annex_ii@.len() as int),
        forall|j: int| 0 <= j < es@.len() ==> record_text_ok((#[trigger] es@[j])@),
        forall|j: int| 0 <= j < supplement@.len() ==> normal_text((#[trigger] supplement@[j]).1@),
    ensures
        forall|j: int| 0 <= j < r@.len() ==> record_text_ok((#[trigger] r@[j])@),
        r@.len() == es@.len(),
        forall|i: int| 0 <= i < es@.len() ==> (#[trigger] r@[i])@ == finished(records_view(es@), i, annex_ii@),
{
    let ghost esv = records_view(es@);
    let mut bases: Vec<String> = Vec::new();
    let mut code_bases: Vec<String> = Vec::new();
    let mut suffixes: Vec<String> = Vec::new();
    let mut k: usize = 0;
    while k < es.len()
        invariant
            esv == records_view(es@),
            k <= es@.len(),
            strings_view(bases@) == base_names(esv).take(k as int),
            strings_view(code_bases@) == code_base_names(esv).take(k as int),
            strings_view(suffixes@) == code_suffixes(esv).take(k as int),
        decreases es@.len() - k,
    {
        let e = &es[k];
        assert(esv[k as int] == e@);
        let ghost (b0, c0, s0) = (bases@, code_bases@, suffixes@);
        let base = pascal(e.name.as_str(), e.code.as_str());
        let code_base = code_variant(e.code.as_str());
        let suffix = code_suffix_pascal(e.code.as_str());
        assert(base_names(esv)[k as int] == base@);
        assert(code_base_names(esv)[k as int] == code_base@);
        assert(code_suffixes(esv)[k as int] == suffix@);
        assert(strings_view(b0.push(base)) =~= strings_view(b0).push(base@));
        assert(strings_view(c0.push(code_base)) =~= strings_view(c0).push(code_base@));
        assert(base_names(esv).take(k + 1) =~= base_names(esv).take(k as int).push(base@));
        assert(code_base_names(esv).take(k + 1) =~= code_base_names(esv).take(k as int).push(
            code_base@,
        ));
        assert(strings_view(s0.push(suffix)) =~= strings_view(s0).push(suffix@));
        assert(code_suffixes(esv).take(k + 1) =~= code_suffixes(esv).take(k as int).push(suffix@));
        bases.push(base);
        code_bases.push(code_base);
        suffixes.push(suffix);
        assert(strings_view(bases@) =~= base_names(esv).take(k + 1));
        assert(strings_view(code_bases@) =~= code_base_names(esv).take(k + 1));
        assert(strings_view(suffixes@) =~= code_suffixes(esv).take(k + 1));
        k = k + 1;
    }
    assert(base_names(esv).take(es@.len() as int) =~= base_names(esv));
    assert(code_base_names(esv).take(es@.len() as int) =~= code_base_names(esv));
    assert(code_suffixes(esv).take(es@.len() as int) =~= code_suffixes(esv));
    let names = assign_unique_names(&bases, &suffixes);
    let code_names = assign_unique_names(&code_bases, &suffixes);
    let ghost nv = strings_view(names@);
    let ghost cv = strings_view(code_names@);
    proof {
        lemma_assigned(base_names(esv), code_suffixes(esv), esv.len() as int);
        lemma_assigned(code_base_names(esv), code_suffixes(esv), esv.len() as int);
    }
    let mut out: Vec<Record> = Vec::new();
    let mut k: usize = 0;
    while k < es.len()
        invariant
            esv == records_view(es@),
            supplement_ok(supplement@, annex_ii@, annex_ii@.len() as int),
            forall|j: int| 0 <= j < es@.len() ==> record_text_ok((#[trigger] es@[j])@),
            forall|j: int| 0 <= j < supplement@.len() ==> normal_text((#[trigger] supplement@[j]).1@),
            forall|j: int| 0 <= j < out@.len() ==> record_text_ok((#[trigger] out@[j])@),
            k <= es@.len(),
            out@.len() == k,
            names@.len() == es@.len(),
            code_names@.len() == es@.len(),
            nv == strings_view(names@),
            cv == strings_view(code_names@),
            nv == assigned(base_names(esv), code_suffixes(esv), esv.len() as int),
            cv == assigned(code_base_names(esv), code_suffixes(esv), esv.len() as int),
            forall|j: int| 0 <= j < k ==> (#[trigger] out@[j])@ == finished(esv, j, annex_ii@),
        decreases es@.len() - k,
    {
        let e = &es[k];
        assert(esv[k as int] == e@);
        assert(nv[k as int] == names@[k as int]@);
        assert(cv[k as int] == code_names@[k as int]@);
        let description = match &e.description {
            Some(d) => Some(d.clone()),
            None => {
                let found = find_description(supplement, &e.code);
                proof {
                    let c = e.code@;
                    let fv = opt_view(found);
                    match fv {
                        Some(d) => {
                            let j = choose|j: int|
                                0 <= j < supplement@.len() && #[trigger] supplement@[j].0@ == c
                                    && supplement@[j].1@ == d;
                            assert(first_description(annex_ii@, annex_ii@.len() as int, supplement@[j].0@) == Some(supplement@[j].1@));
                        },
                        None => {
                            if first_description(annex_ii@, annex_ii@.len() as int, c) is Some {
                                let j = choose|j: int| 0 <= j < supplement@.len() && (#[trigger] supplement@[j]).0@ == c;
                                assert(supplement@[j].0@ != c);
                            }
                        },
                    }
                }
                found
            },
        };
        let rec = Record {
            variant: names[k].clone(),
            code_variant: code_names[k].clone(),
            code: e.code.clone(),
            name: e.name.clone(),
            symbol: clone_opt(&e.symbol),
            quantity: clone_opt(&e.quantity),
            sector: clone_opt(&e.sector),
            conversion_factor: clone_opt(&e.conversion_factor),
            level_category: clone_opt(&e.level_category),
            description: description,
        };
        assert(rec@ == finished(esv, k as int, annex_ii@));
        assert(record_text_ok(es@[k as int]@));
        assert(record_text_ok(rec@));
        out.push(rec);
        k = k + 1;
    }
    out
}

/// Reads the unit records from the rows of the Annex I worksheet and of the
/// Annex II & Annex III worksheet (row 0 of each is its header): Annex I
/// records first, then the Annex II/III records of codes not seen before,
/// each code once, in source order; missing descriptions are taken from the
/// first Annex II/III row of the code that has one; variant names are
/// assigned, pairwise distinct (the same names as counting base names
/// gives wherever counting gives distinct ones). Every text of a record is
/// non-empty (the name may be empty), unchanged when normalised again, and
/// free of the ohm sign.
pub fn parse(annex_i: &Vec<Vec<CellValue>>, annex_ii_iii: &Vec<Vec<CellValue>>) -> (records: Vec<
    Record,
>)
    ensures
        records_view(records@) == parsed(annex_i@, annex_ii_iii@),
        forall|j: int| 0 <= j < records@.len() ==> record_text_ok((#[trigger] records@[j])@),
{
    let mut es = read_annex_i(annex_i);
    let supplement = read_annex_ii(annex_ii_iii, &mut es);
    let out = finish(&es, annex_ii_iii, &supplement);
    assert(records_view(out@) =~= parsed(annex_i@, annex_ii_iii@));
    out
}


/// No two records share a code.
pub open spec fn codes_distinct(s: Seq<RecordView>) -> bool {
    forall|i: int, j: int| 0 <= i < j < s.len() ==> (#[trigger] s[i]).code != (#[trigger] s[j]).code
}

/// Some row of Annex I after the header counts with this code.
pub open spec fn in_annex_i(rows: Seq<Vec<CellValue>>, code: Seq<char>) -> bool {
    exists|r: int| 1 <= r < rows.len() && #[trigger] annex_i_code(rows[r]@) == Some(code)
}

/// Some row of Annex II/III after the header counts with this code.
pub open spec fn in_annex_ii(rows: Seq<Vec<CellValue>>, code: Seq<char>) -> bool {
    exists|r: int| 1 <= r < rows.len() && #[trigger] annex_ii_code(rows[r]@) == Some(code)
}

proof fn lemma_collect_annex_i(rows: Seq<Vec<CellValue>>, n: int)
    requires
        n <= rows.len(),
    ensures
        codes_distinct(collect_annex_i(rows, n)),
        forall|c: Seq<char>|
            (#[trigger] codes_of(collect_annex_i(rows, n)).contains(c)) <==> exists|r: int|
                1 <= r < n && #[trigger] annex_i_code(rows[r]@) == Some(c),
    decreases n,
{
    if n > 1 {
        lemma_collect_annex_i(rows, n - 1);
        let prev = collect_annex_i(rows, n - 1);
        let cur = collect_annex_i(rows, n);
        match annex_i_code(rows[n - 1]@) {
            Some(code) => {
                if !codes_of(prev).contains(code) {
                    assert(codes_of(cur) =~= codes_of(prev).push(code));
                    assert forall|i: int, j: int| 0 <= i < j < cur.len() implies (#[trigger] cur[i]).code
                        != (#[trigger] cur[j]).code by {
                        if j == cur.len() - 1 {
                            assert(codes_of(prev)[i] == cur[i].code);
                        }
                    }
                }
            },
            None => {},
        }
        assert forall|c: Seq<char>|
            codes_of(cur).contains(c) <==> exists|r: int|
                1 <= r < n && #[trigger] annex_i_code(rows[r]@) == Some(c) by {
            if exists|r: int| 1 <= r < n && #[trigger] annex_i_code(rows[r]@) == Some(c) {
                let r = choose|r: int| 1 <= r < n && #[trigger] annex_i_code(rows[r]@) == Some(c);
                if r < n - 1 {
                    assert(codes_of(prev).contains(c));
                    let i = choose|i: int| 0 <= i < codes_of(prev).len() && codes_of(prev)[i] == c;
                    assert(codes_of(cur)[i] == c);
                } else {
                    if !codes_of(prev).contains(c) {
                        assert(codes_of(cur)[cur.len() - 1] == c);
                    } else {
                        let i = choose|i: int| 0 <= i < codes_of(prev).len() && codes_of(prev)[i] == c;
                        assert(codes_of(cur)[i] == c);
                    }
                }
            }
            if codes_of(cur).contains(c) {
                let i = choose|i: int| 0 <= i < codes_of(cur).len() && codes_of(cur)[i] == c;
                if i < prev.len() {
                    assert(codes_of(prev)[i] == c);
                    assert(codes_of(prev).contains(c));
                } else {
                    assert(annex_i_code(rows[n - 1]@) == Some(c));
                }
            }
        }
    } else {
        assert(codes_of(collect_annex_i(rows, n)) =~= Seq::empty());
    }
}

proof fn lemma_collect_annex_ii(rows: Seq<Vec<CellValue>>, n: int, base: Seq<RecordView>)
    requires
        n <= rows.len(),
        codes_distinct(base),
    ensures
        codes_distinct(collect_annex_ii(rows, n, base)),
        collect_annex_ii(rows, n, base).len() >= base.len(),
        collect_annex_ii(rows, n, base).subrange(0, base.len() as int) == base,
        forall|i: int|
            base.len() <= i < collect_annex_ii(rows, n, base).len() ==> !codes_of(base).contains(
                (#[trigger] collect_annex_ii(rows, n, base)[i]).code,
            ) && exists|r: int|
                1 <= r < n && #[trigger] annex_ii_code(rows[r]@) == Some(
                    collect_annex_ii(rows, n, base)[i].code,
                ),
        forall|c: Seq<char>|
            (#[trigger] codes_of(collect_annex_ii(rows, n, base)).contains(c)) <==> (codes_of(base).contains(c)
                || exists|r: int| 1 <= r < n && #[trigger] annex_ii_code(rows[r]@) == Some(c)),
    decreases n,
{
    let cur = collect_annex_ii(rows, n, base);
    if n > 1 {
        lemma_collect_annex_ii(rows, n - 1, base);
        let prev = collect_annex_ii(rows, n - 1, base);
        match annex_ii_code(rows[n - 1]@) {
            Some(code) => {
                if !codes_of(prev).contains(code) {
                    assert(codes_of(cur) =~= codes_of(prev).push(code));
                    assert forall|i: int, j: int| 0 <= i < j < cur.len() implies (#[trigger] cur[i]).code
                        != (#[trigger] cur[j]).code by {
                        if j == cur.len() - 1 {
                            assert(codes_of(prev)[i] == cur[i].code);
                        }
                    }
                    assert(cur.subrange(0, base.len() as int) =~= prev.subrange(0, base.len() as int));
                    assert(!codes_of(base).contains(code)) by {
                        if codes_of(base).contains(code) {
                            let i = choose|i: int| 0 <= i < codes_of(base).len() && codes_of(base)[i] == code;
                            assert(prev.subrange(0, base.len() as int)[i] == base[i]);
                            assert(codes_of(prev)[i] == code);
                        }
                    }
                }
            },
            None => {},
        }
        assert forall|i: int|
            base.len() <= i < cur.len() implies !codes_of(base).contains((#[trigger] cur[i]).code)
            && exists|r: int| 1 <= r < n && #[trigger] annex_ii_code(rows[r]@) == Some(cur[i].code) by {
            if i < prev.len() {
                assert(cur[i] == prev[i]);
                let r = choose|r: int| 1 <= r < n - 1 && #[trigger] annex_ii_code(rows[r]@) == Some(prev[i].code);
                assert(annex_ii_code(rows[r]@) == Some(cur[i].code));
            } else {
                assert(annex_ii_code(rows[n - 1]@) == Some(cur[i].code));
            }
        }
        assert forall|c: Seq<char>|
            codes_of(cur).contains(c) <==> (codes_of(base).contains(c) || exists|r: int|
                1 <= r < n && #[trigger] annex_ii_code(rows[r]@) == Some(c)) by {
            assert(codes_of(cur).contains(c) <==> (codes_of(prev).contains(c) || annex_ii_code(
                rows[n - 1]@,
            ) == Some(c))) by {
                if codes_of(prev).contains(c) {
                    let i = choose|i: int| 0 <= i < codes_of(prev).len() && codes_of(prev)[i] == c;
                    assert(codes_of(cur)[i] == c);
                }
                if annex_ii_code(rows[n - 1]@) == Some(c) && !codes_of(prev).contains(c) {
                    assert(codes_of(cur)[cur.len() - 1] == c);
                }
                if codes_of(cur).contains(c) {
                    let i = choose|i: int| 0 <= i < codes_of(cur).len() && codes_of(cur)[i] == c;
                    if i < prev.len() {
                        assert(codes_of(prev)[i] == c);
                    }
                }
            }
            if exists|r: int| 1 <= r < n && #[trigger] annex_ii_code(rows[r]@) == Some(c) {
                let r = choose|r: int| 1 <= r < n && #[trigger] annex_ii_code(rows[r]@) == Some(c);
                if r < n - 1 {
                    assert(codes_of(prev).contains(c));
                }
            }
            if codes_of(prev).contains(c) && !codes_of(base).contains(c) {
                let r = choose|r: int| 1 <= r < n - 1 && #[trigger] annex_ii_code(rows[r]@) == Some(c);
                assert(annex_ii_code(rows[r]@) == Some(c));
            }
        }
    } else {
        assert(cur.subrange(0, base.len() as int) =~= base);
    }
}

/// The parser keeps each code once: no two records share a code.
pub proof fn lemma_parsed_codes_distinct(annex_i: Seq<Vec<CellValue>>, annex_ii: Seq<Vec<CellValue>>)
    ensures
        codes_distinct(parsed(annex_i, annex_ii)),
{
    lemma_collect_annex_i(annex_i, annex_i.len() as int);
    lemma_collect_annex_ii(annex_ii, annex_ii.len() as int, collect_annex_i(annex_i, annex_i.len() as int));
    let es = entries(annex_i, annex_ii);
    let p = parsed(annex_i, annex_ii);
    assert forall|i: int, j: int| 0 <= i < j < p.len() implies (#[trigger] p[i]).code != (#[trigger] p[j]).code by {
        assert(p[i].code == es[i].code);
        assert(p[j].code == es[j].code);
    }
}

/// The parser keeps every code: a code has a record exactly when an active
/// row of Annex I or of Annex II/III carries it.
pub proof fn lemma_parsed_codes_complete(
    annex_i: Seq<Vec<CellValue>>,
    annex_ii: Seq<Vec<CellValue>>,
    code: Seq<char>,
)
    ensures
        codes_of(parsed(annex_i, annex_ii)).contains(code) <==> (in_annex_i(annex_i, code)
            || in_annex_ii(annex_ii, code)),
{
    let a = collect_annex_i(annex_i, annex_i.len() as int);
    lemma_collect_annex_i(annex_i, annex_i.len() as int);
    lemma_collect_annex_ii(annex_ii, annex_ii.len() as int, a);
    let es = entries(annex_i, annex_ii);
    let p = parsed(annex_i, annex_ii);
    assert(codes_of(p) =~= codes_of(es)) by {
        assert forall|i: int| 0 <= i < p.len() implies codes_of(p)[i] == codes_of(es)[i] by {
            assert(p[i].code == es[i].code);
        }
    }
    assert(codes_of(a).contains(code) <==> in_annex_i(annex_i, code));
    assert(codes_of(es).contains(code) <==> (codes_of(a).contains(code) || in_annex_ii(annex_ii, code)));
}

/// Annex I records come first, in source order, then the records that
/// only Annex II/III introduces.
pub proof fn lemma_parsed_annex_i_first(annex_i: Seq<Vec<CellValue>>, annex_ii: Seq<Vec<CellValue>>)
    ensures
        ({
            let p = parsed(annex_i, annex_ii);
            let k = collect_annex_i(annex_i, annex_i.len() as int).len();
            &&& k <= p.len()
            &&& forall|i: int| 0 <= i < k ==> in_annex_i(annex_i, (#[trigger] p[i]).code)
            &&& forall|i: int|
                k <= i < p.len() ==> !in_annex_i(annex_i, (#[trigger] p[i]).code) && in_annex_ii(
                    annex_ii,
                    p[i].code,
                )
        }),
{
    let a = collect_annex_i(annex_i, annex_i.len() as int);
    lemma_collect_annex_i(annex_i, annex_i.len() as int);
    lemma_collect_annex_ii(annex_ii, annex_ii.len() as int, a);
    let es = entries(annex_i, annex_ii);
    let p = parsed(annex_i, annex_ii);
    let k = a.len();
    assert forall|i: int| 0 <= i < k implies in_annex_i(annex_i, (#[trigger] p[i]).code) by {
        assert(es.subrange(0, k as int)[i] == a[i]);
        assert(p[i].code == a[i].code);
        assert(codes_of(a)[i] == a[i].code);
        assert(codes_of(a).contains(a[i].code));
    }
    assert forall|i: int|
        k <= i < p.len() implies !in_annex_i(annex_i, (#[trigger] p[i]).code) && in_annex_ii(
            annex_ii,
            p[i].code,
        ) by {
        assert(p[i].code == es[i].code);
        let r = choose|r: int| 1 <= r < annex_ii.len() && #[trigger] annex_ii_code(annex_ii[r]@) == Some(es[i].code);
        if in_annex_i(annex_i, es[i].code) {
            let r1 = choose|r: int| 1 <= r < annex_i.len() && #[trigger] annex_i_code(annex_i[r]@) == Some(es[i].code);
            assert(codes_of(a).contains(es[i].code));
        }
    }
}

/// Every variant name and code variant name that the parser assigns is
/// non-empty and does not begin with an ASCII digit.
pub proof fn lemma_parsed_variants_are_identifier_starts(
    annex_i: Seq<Vec<CellValue>>,
    annex_ii: Seq<Vec<CellValue>>,
)
    ensures
        forall|i: int|
            0 <= i < parsed(annex_i, annex_ii).len() ==> {
                let r = #[trigger] parsed(annex_i, annex_ii)[i];
                &&& r.variant.len() > 0
                &&& !starts_with_digit(r.variant)
                &&& r.code_variant.len() > 0
                &&& !starts_with_digit(r.code_variant)
            },
{
    let es = entries(annex_i, annex_ii);
    let n = es.len() as int;
    lemma_assigned(base_names(es), code_suffixes(es), n);
    lemma_assigned(code_base_names(es), code_suffixes(es), n);
    assert forall|i: int| 0 <= i < parsed(annex_i, annex_ii).len() implies {
        let r = #[trigger] parsed(annex_i, annex_ii)[i];
        &&& r.variant.len() > 0
        &&& !starts_with_digit(r.variant)
        &&& r.code_variant.len() > 0
        &&& !starts_with_digit(r.code_variant)
    } by {
        let e = es[i];
        lemma_pascal_name_is_identifier_start(e.name, e.code);
        lemma_code_variant_name_is_identifier_start(e.code);
        let b = base_names(es)[i];
        let cb = code_base_names(es)[i];
        let v = assigned(base_names(es), code_suffixes(es), n)[i];
        let cv = assigned(code_base_names(es), code_suffixes(es), n)[i];
        assert(v.subrange(0, b.len() as int)[0] == v[0]);
        assert(cv.subrange(0, cb.len() as int)[0] == cv[0]);
    }
}

/// Variant names are unique: no two records get the same variant name, and
/// no two get the same code variant name, so the generated enums compile.
pub proof fn lemma_parsed_variants_distinct(
    annex_i: Seq<Vec<CellValue>>,
    annex_ii: Seq<Vec<CellValue>>,
)
    ensures
        forall|i: int, j: int|
            0 <= i < j < parsed(annex_i, annex_ii).len() ==> (#[trigger] parsed(annex_i, annex_ii)[i]).variant
                != (#[trigger] parsed(annex_i, annex_ii)[j]).variant && parsed(annex_i, annex_ii)[i].code_variant
                != parsed(annex_i, annex_ii)[j].code_variant,
{
    let es = entries(annex_i, annex_ii);
    let n = es.len() as int;
    lemma_assigned(base_names(es), code_suffixes(es), n);
    lemma_assigned(code_base_names(es), code_suffixes(es), n);
}

/// Row `r` is the first row of Annex I after the header whose code counts
/// and is `code`.
pub open spec fn first_annex_i_row(rows: Seq<Vec<CellValue>>, code: Seq<char>, r: int) -> bool {
    &&& 1 <= r < rows.len()
    &&& annex_i_code(rows[r]@) == Some(code)
    &&& forall|q: int| 1 <= q < r ==> #[trigger] annex_i_code(rows[q]@) != Some(code)
}

/// Row `r` is the first row of Annex II/III after the header whose code
/// counts and is `code`.
pub open spec fn first_annex_ii_row(rows: Seq<Vec<CellValue>>, code: Seq<char>, r: int) -> bool {
    &&& 1 <= r < rows.len()
    &&& annex_ii_code(rows[r]@) == Some(code)
    &&& forall|q: int| 1 <= q < r ==> #[trigger] annex_ii_code(rows[q]@) != Some(code)
}

/// Row `s` of Annex II/III counts with `code` and has a description.
pub open spec fn described_row(rows: Seq<Vec<CellValue>>, code: Seq<char>, s: int) -> bool {
    &&& 1 <= s < rows.len()
    &&& annex_ii_code(rows[s]@) == Some(code)
    &&& field(rows[s]@, 3) is Some
}

/// Row `s` is the first row of Annex II/III that counts with `code` and has
/// a description.
pub open spec fn first_described_row(rows: Seq<Vec<CellValue>>, code: Seq<char>, s: int) -> bool {
    &&& described_row(rows, code, s)
    &&& forall|q: int| 1 <= q < s ==> !#[trigger] described_row(rows, code, q)
}

/// Two records agree on the fields that a row gives: code, name, symbol,
/// quantity, sector, conversion factor and level/category.
pub open spec fn same_row_fields(a: RecordView, b: RecordView) -> bool {
    &&& a.code == b.code
    &&& a.name == b.name
    &&& a.symbol == b.symbol
    &&& a.quantity == b.quantity
    &&& a.sector == b.sector
    &&& a.conversion_factor == b.conversion_factor
    &&& a.level_category == b.level_category
}

proof fn lemma_collect_annex_i_rows(rows: Seq<Vec<CellValue>>, n: int, i: int, r: int)
    requires
        n <= rows.len(),
        0 <= i < collect_annex_i(rows, n).len(),
        r < n,
        first_annex_i_row(rows, collect_annex_i(rows, n)[i].code, r),
    ensures
        collect_annex_i(rows, n)[i] == annex_i_entry(rows[r]@, collect_annex_i(rows, n)[i].code),
    decreases n,
{
    lemma_collect_annex_i(rows, n - 1);
    let prev = collect_annex_i(rows, n - 1);
    let cur = collect_annex_i(rows, n);
    let c = cur[i].code;
    if i < prev.len() {
        assert(cur[i] == prev[i]);
        if r == n - 1 {
            assert(codes_of(prev)[i] == c);
            assert(codes_of(prev).contains(c));
            let q = choose|q: int| 1 <= q < n - 1 && #[trigger] annex_i_code(rows[q]@) == Some(c);
            assert(annex_i_code(rows[q]@) != Some(c));
        }
        lemma_collect_annex_i_rows(rows, n - 1, i, r);
    } else {
        assert(annex_i_code(rows[n - 1]@) == Some(c));
        assert(!codes_of(prev).contains(c));
        if r < n - 1 {
            assert(annex_i_code(rows[r]@) == Some(c));
        }
    }
}

proof fn lemma_collect_annex_ii_rows(
    rows: Seq<Vec<CellValue>>,
    n: int,
    base: Seq<RecordView>,
    i: int,
    r: int,
)
    requires
        n <= rows.len(),
        codes_distinct(base),
        base.len() <= i < collect_annex_ii(rows, n, base).len(),
        r < n,
        first_annex_ii_row(rows, collect_annex_ii(rows, n, base)[i].code, r),
    ensures
        collect_annex_ii(rows, n, base)[i] == annex_ii_entry(
            rows[r]@,
            collect_annex_ii(rows, n, base)[i].code,
        ),
    decreases n,
{
    lemma_collect_annex_ii(rows, n - 1, base);
    let prev = collect_annex_ii(rows, n - 1, base);
    let cur = collect_annex_ii(rows, n, base);
    let c = cur[i].code;
    if i < prev.len() {
        assert(cur[i] == prev[i]);
        if r == n - 1 {
            let q = choose|q: int| 1 <= q < n - 1 && #[trigger] annex_ii_code(rows[q]@) == Some(prev[i].code);
            assert(annex_ii_code(rows[q]@) != Some(c));
        }
        lemma_collect_annex_ii_rows(rows, n - 1, base, i, r);
    } else {
        assert(annex_ii_code(rows[n - 1]@) == Some(c));
        assert(!codes_of(prev).contains(c));
        if r < n - 1 {
            assert(annex_ii_code(rows[r]@) == Some(c));
        }
    }
}

proof fn lemma_first_description_none(rows: Seq<Vec<CellValue>>, n: int, code: Seq<char>)
    requires
        n <= rows.len(),
    ensures
        (forall|s: int| 1 <= s < n ==> !#[trigger] described_row(rows, code, s)) ==> first_description(
            rows,
            n,
            code,
        ) is None,
        first_description(rows, n, code) is Some ==> exists|s: int|
            1 <= s < n && #[trigger] described_row(rows, code, s),
    decreases n,
{
    if n > 1 {
        lemma_first_description_none(rows, n - 1, code);
        if first_description(rows, n, code) is Some {
            if first_description(rows, n - 1, code) is None {
                assert(described_row(rows, code, n - 1));
            }
        }
    }
}

proof fn lemma_first_description_at(rows: Seq<Vec<CellValue>>, n: int, code: Seq<char>, s: int)
    requires
        n <= rows.len(),
        s < n,
        first_described_row(rows, code, s),
    ensures
        first_description(rows, n, code) == field(rows[s]@, 3),
    decreases n,
{
    if s < n - 1 {
        lemma_first_description_at(rows, n - 1, code, s);
    } else {
        lemma_first_description_none(rows, n - 1, code);
        if first_description(rows, n - 1, code) is Some {
            let q = choose|q: int| 1 <= q < n - 1 && #[trigger] described_row(rows, code, q);
            assert(!described_row(rows, code, q));
        }
    }
}

/// A record that Annex I introduces carries the fields of the first active
/// Annex I row `r` with its code, column by column: code 6, sector 1,
/// quantity 3, level/category 4, name 7 (empty when blank), conversion
/// factor 8, symbol 9, and description 10 when that has one; later rows
/// with the same code change none of these.
pub proof fn lemma_parsed_annex_i_fields(
    annex_i: Seq<Vec<CellValue>>,
    annex_ii: Seq<Vec<CellValue>>,
    i: int,
    r: int,
)
    requires
        0 <= i < parsed(annex_i, annex_ii).len(),
        first_annex_i_row(annex_i, parsed(annex_i, annex_ii)[i].code, r),
    ensures
        ({
            let p = parsed(annex_i, annex_ii)[i];
            let e = annex_i_entry(annex_i[r]@, p.code);
            let row = annex_i[r]@;
            &&& same_row_fields(p, e)
            &&& e.description is Some ==> p.description == e.description
            &&& field(row, 6) == Some(p.code)
            &&& p.sector == field(row, 1)
            &&& p.quantity == field(row, 3)
            &&& p.level_category == field(row, 4)
            &&& p.name == or_empty(field(row, 7))
            &&& p.conversion_factor == field(row, 8)
            &&& p.symbol == field(row, 9)
            &&& field(row, 10) is Some ==> p.description == field(row, 10)
        }),
{
    let a = collect_annex_i(annex_i, annex_i.len() as int);
    lemma_collect_annex_i(annex_i, annex_i.len() as int);
    lemma_collect_annex_ii(annex_ii, annex_ii.len() as int, a);
    lemma_parsed_annex_i_first(annex_i, annex_ii);
    let es = entries(annex_i, annex_ii);
    let p = parsed(annex_i, annex_ii);
    assert(p[i].code == es[i].code);
    assert(in_annex_i(annex_i, p[i].code));
    assert(i < a.len());
    assert(es.subrange(0, a.len() as int)[i] == a[i]);
    assert(es[i] == a[i]);
    lemma_collect_annex_i_rows(annex_i, annex_i.len() as int, i, r);
}

/// A record that only Annex II/III introduces carries the fields of the
/// first active Annex II/III row `r` with its code, column by column: code
/// 1, name 2 (empty when blank), level/category 4, symbol 5, conversion
/// factor 6, and description 3 when that has one; it has no quantity and
/// no sector.
pub proof fn lemma_parsed_annex_ii_fields(
    annex_i: Seq<Vec<CellValue>>,
    annex_ii: Seq<Vec<CellValue>>,
    i: int,
    r: int,
)
    requires
        0 <= i < parsed(annex_i, annex_ii).len(),
        !in_annex_i(annex_i, parsed(annex_i, annex_ii)[i].code),
        first_annex_ii_row(annex_ii, parsed(annex_i, annex_ii)[i].code, r),
    ensures
        ({
            let p = parsed(annex_i, annex_ii)[i];
            let e = annex_ii_entry(annex_ii[r]@, p.code);
            let row = annex_ii[r]@;
            &&& same_row_fields(p, e)
            &&& p.quantity is None
            &&& p.sector is None
            &&& e.description is Some ==> p.description == e.description
            &&& field(row, 1) == Some(p.code)
            &&& p.name == or_empty(field(row, 2))
            &&& p.level_category == field(row, 4)
            &&& p.symbol == field(row, 5)
            &&& p.conversion_factor == field(row, 6)
            &&& field(row, 3) is Some ==> p.description == field(row, 3)
        }),
{
    let a = collect_annex_i(annex_i, annex_i.len() as int);
    lemma_collect_annex_i(annex_i, annex_i.len() as int);
    lemma_collect_annex_ii(annex_ii, annex_ii.len() as int, a);
    lemma_parsed_annex_i_first(annex_i, annex_ii);
    let es = entries(annex_i, annex_ii);
    let p = parsed(annex_i, annex_ii);
    assert(p[i].code == es[i].code);
    if i < a.len() {
        assert(in_annex_i(annex_i, p[i].code));
    }
    lemma_collect_annex_ii_rows(annex_ii, annex_ii.len() as int, a, i, r);
}

/// A record whose introducing row `r` (the first active row with its code,
/// in Annex I, or else in Annex II/III) has no description takes the
/// description of the first active Annex II/III row `s` with its code that
/// has one.
pub proof fn lemma_parsed_description_filled(
    annex_i: Seq<Vec<CellValue>>,
    annex_ii: Seq<Vec<CellValue>>,
    i: int,
    r: int,
    s: int,
)
    requires
        0 <= i < parsed(annex_i, annex_ii).len(),
        ({
            let c = parsed(annex_i, annex_ii)[i].code;
            ||| first_annex_i_row(annex_i, c, r) && field(annex_i[r]@, 10) is None
            ||| !in_annex_i(annex_i, c) && first_annex_ii_row(annex_ii, c, r) && field(
                annex_ii[r]@,
                3,
            ) is None
        }),
        first_described_row(annex_ii, parsed(annex_i, annex_ii)[i].code, s),
    ensures
        parsed(annex_i, annex_ii)[i].description == field(annex_ii[s]@, 3),
{
    lemma_parsed_description_cases(annex_i, annex_ii, i, r);
    lemma_first_description_at(annex_ii, annex_ii.len() as int, parsed(annex_i, annex_ii)[i].code, s);
}

/// A record whose introducing row `r` has no description has none when no
/// active Annex II/III row with its code has one.
pub proof fn lemma_parsed_description_absent(
    annex_i: Seq<Vec<CellValue>>,
    annex_ii: Seq<Vec<CellValue>>,
    i: int,
    r: int,
)
    requires
        0 <= i < parsed(annex_i, annex_ii).len(),
        ({
            let c = parsed(annex_i, annex_ii)[i].code;
            ||| first_annex_i_row(annex_i, c, r) && field(annex_i[r]@, 10) is None
            ||| !in_annex_i(annex_i, c) && first_annex_ii_row(annex_ii, c, r) && field(
                annex_ii[r]@,
                3,
            ) is None
        }),
        forall|s: int| !#[trigger] described_row(annex_ii, parsed(annex_i, annex_ii)[i].code, s),
    ensures
        parsed(annex_i, annex_ii)[i].description is None,
{
    lemma_parsed_description_cases(annex_i, annex_ii, i, r);
    lemma_first_description_none(annex_ii, annex_ii.len() as int, parsed(annex_i, annex_ii)[i].code);
}

proof fn lemma_parsed_description_cases(
    annex_i: Seq<Vec<CellValue>>,
    annex_ii: Seq<Vec<CellValue>>,
    i: int,
    r: int,
)
    requires
        0 <= i < parsed(annex_i, annex_ii).len(),
        ({
            let c = parsed(annex_i, annex_ii)[i].code;
            ||| first_annex_i_row(annex_i, c, r) && field(annex_i[r]@, 10) is None
            ||| !in_annex_i(annex_i, c) && first_annex_ii_row(annex_ii, c, r) && field(
                annex_ii[r]@,
                3,
            ) is None
        }),
    ensures
        parsed(annex_i, annex_ii)[i].description == first_description(
            annex_ii,
            annex_ii.len() as int,
            parsed(annex_i, annex_ii)[i].code,
        ),
{
    let a = collect_annex_i(annex_i, annex_i.len() as int);
    lemma_collect_annex_i(annex_i, annex_i.len() as int);
    lemma_collect_annex_ii(annex_ii, annex_ii.len() as int, a);
    lemma_parsed_annex_i_first(annex_i, annex_ii);
    let es = entries(annex_i, annex_ii);
    let p = parsed(annex_i, annex_ii);
    let c = p[i].code;
    assert(c == es[i].code);
    if first_annex_i_row(annex_i, c, r) && field(annex_i[r]@, 10) is None {
        assert(in_annex_i(annex_i, c));
        assert(es.subrange(0, a.len() as int)[i] == a[i]);
        lemma_collect_annex_i_rows(annex_i, annex_i.len() as int, i, r);
        assert(es[i] == annex_i_entry(annex_i[r]@, c));
    } else {
        if i < a.len() {
            assert(in_annex_i(annex_i, c));
        }
        lemma_collect_annex_ii_rows(annex_ii, annex_ii.len() as int, a, i, r);
        assert(es[i] == annex_ii_entry(annex_ii[r]@, c));
    }
}

/// Counting base names gives pairwise distinct names for these entries.
pub open spec fn count_rule_distinct(bases: Seq<Seq<char>>, suffixes: Seq<Seq<char>>) -> bool {
    forall|i: int, j: int|
        0 <= i < j < bases.len() ==> #[trigger] count_rule_name(bases, suffixes, i)
            != #[trigger] count_rule_name(bases, suffixes, j)
}

/// Wherever counting base names (the first record with a base name keeps
/// it, later ones get the code suffix appended once) already gives
/// pairwise distinct names, the parser gives exactly those names; the same
/// holds of code variant names.
pub proof fn lemma_parsed_variants_agree_with_count_rule(
    annex_i: Seq<Vec<CellValue>>,
    annex_ii: Seq<Vec<CellValue>>,
)
    ensures
        ({
            let es = entries(annex_i, annex_ii);
            let p = parsed(annex_i, annex_ii);
            &&& count_rule_distinct(base_names(es), code_suffixes(es)) ==> forall|i: int|
                0 <= i < p.len() ==> (#[trigger] p[i]).variant == count_rule_name(
                    base_names(es),
                    code_suffixes(es),
                    i,
                )
            &&& count_rule_distinct(code_base_names(es), code_suffixes(es)) ==> forall|i: int|
                0 <= i < p.len() ==> (#[trigger] p[i]).code_variant == count_rule_name(
                    code_base_names(es),
                    code_suffixes(es),
                    i,
                )
        }),
{
    let es = entries(annex_i, annex_ii);
    let n = es.len() as int;
    if count_rule_distinct(base_names(es), code_suffixes(es)) {
        lemma_assigned_agrees_with_count_rule(base_names(es), code_suffixes(es), n);
    }
    if count_rule_distinct(code_base_names(es), code_suffixes(es)) {
        lemma_assigned_agrees_with_count_rule(code_base_names(es), code_suffixes(es), n);
    }
}

/// Which cells decide whether a row counts, and with which code: in Annex I
/// the status in column 5 and the code in column 6; in Annex II/III the
/// status in column 0 and the code in column 1. A row without the status
/// column counts as active; a status of `D`, `X` or U+00A6 makes it not
/// count.
pub proof fn lemma_row_code_columns(row: Seq<CellValue>)
    ensures
        annex_i_code(row) == (if 5 < row.len() && (cell_text(row[5]) == Some(seq!['D'])
            || cell_text(row[5]) == Some(seq!['X']) || cell_text(row[5]) == Some(
            seq!['\u{A6}'],
        )) {
            None
        } else {
            field(row, 6)
        }),
        annex_ii_code(row) == (if 0 < row.len() && (cell_text(row[0]) == Some(seq!['D'])
            || cell_text(row[0]) == Some(seq!['X']) || cell_text(row[0]) == Some(
            seq!['\u{A6}'],
        )) {
            None
        } else {
            field(row, 1)
        }),
{
    if 5 < row.len() {
        lemma_status_active_exactly(row[5]);
    }
    if 0 < row.len() {
        lemma_status_active_exactly(row[0]);
    }
}

} // verus!
