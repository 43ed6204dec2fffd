use cefact_units::records::{parse, Record};
use cefact_units::sheet::{cell, is_active, CellValue, NumberText};

fn text(s: &str) -> CellValue {
    CellValue::Text(s.to_string())
}

fn row(cells: &[&str]) -> Vec<CellValue> {
    cells.iter().map(|c| text(c)).collect()
}

fn annex_i(status: &str, code: &str, name: &str) -> Vec<CellValue> {
    row(&["1", "Sector", "1", "quantity", "1", status, code, name, "factor", "sym", "desc"])
}

fn find<'a>(records: &'a [Record], code: &str) -> &'a Record {
    records.iter().find(|r| r.code == code).unwrap()
}

#[test]
fn cell_trims_text() {
    assert_eq!(cell(&text("  kg \t")), Some("kg".to_string()));
    assert_eq!(cell(&text(" \u{A0}\u{3000} ")), None);
    assert_eq!(cell(&text("")), None);
    assert_eq!(cell(&CellValue::Other), None);
}

#[test]
fn cell_formats_numbers() {
    assert_eq!(cell(&CellValue::Int(0)), Some("0".to_string()));
    assert_eq!(cell(&CellValue::Int(1042)), Some("1042".to_string()));
    assert_eq!(cell(&CellValue::Int(-7)), Some("-7".to_string()));
    assert_eq!(cell(&CellValue::Int(i64::MIN)), Some(i64::MIN.to_string()));
    assert_eq!(cell(&CellValue::Int(i64::MAX)), Some(i64::MAX.to_string()));
    let n = NumberText::new("0.001".to_string()).unwrap();
    assert_eq!(n.as_str(), "0.001");
    assert_eq!(cell(&CellValue::Decimal(n)), Some("0.001".to_string()));
}

#[test]
fn status_marks() {
    assert!(!is_active(&text("D")));
    assert!(!is_active(&text("X")));
    assert!(!is_active(&text("\u{A6}")));
    assert!(!is_active(&text(" D ")));
    assert!(is_active(&text("")));
    assert!(is_active(&text("+")));
    assert!(is_active(&text("DX")));
    assert!(is_active(&CellValue::Other));
    assert!(is_active(&CellValue::Int(1)));
}

#[test]
fn parse_skips_headers_inactive_rows_and_repeats() {
    let a1 = vec![
        annex_i("Status", "KGM", "header row"),
        annex_i("", "KGM", "kilogram"),
        annex_i("D", "GRM", "gram"),
        annex_i("", "KGM", "kilogram again"),
        annex_i("", "", "no code"),
        row(&["1", "2"]),
    ];
    let a2 = vec![
        row(&["Status", "Code", "Name", "Description"]),
        row(&["", "KGM", "other kilogram", "from annex II"]),
        row(&["", "BX", "box", ""]),
        row(&["X", "CT", "carton", ""]),
    ];
    let records = parse(&a1, &a2);
    let codes: Vec<&str> = records.iter().map(|r| r.code.as_str()).collect();
    assert_eq!(codes, vec!["KGM", "BX"]);
    assert_eq!(records[0].name, "kilogram");
    assert_eq!(records[0].quantity.as_deref(), Some("quantity"));
    assert_eq!(records[1].quantity, None);
    assert_eq!(records[1].sector, None);
    assert_eq!(records[1].description, None);
}

#[test]
fn parse_fills_descriptions_from_annex_ii() {
    let mut kgm = annex_i("", "KGM", "kilogram");
    kgm[10] = CellValue::Other;
    let a1 = vec![row(&["h"]), kgm, annex_i("", "MTR", "metre")];
    let a2 = vec![
        row(&["h"]),
        row(&["D", "KGM", "x", "deleted description"]),
        row(&["", "KGM", "x", ""]),
        row(&["", "KGM", "x", "first description"]),
        row(&["", "KGM", "x", "second description"]),
        row(&["", "MTR", "x", "not used"]),
    ];
    let records = parse(&a1, &a2);
    assert_eq!(find(&records, "KGM").description.as_deref(), Some("first description"));
    assert_eq!(find(&records, "MTR").description.as_deref(), Some("desc"));
}

#[test]
fn parse_assigns_distinct_variant_names() {
    let a1 = vec![
        row(&["h"]),
        annex_i("", "KGM", "kilogram"),
        annex_i("", "KGS", "kilogram"),
        annex_i("", "2A", "2 pack"),
        annex_i("", "X1", "kilogram!"),
    ];
    let a2: Vec<Vec<CellValue>> = vec![];
    let records = parse(&a1, &a2);
    let variants: Vec<&str> = records.iter().map(|r| r.variant.as_str()).collect();
    assert_eq!(variants, vec!["Kilogram", "KilogramKgs", "_2A", "KilogramX1"]);
    let code_variants: Vec<&str> = records.iter().map(|r| r.code_variant.as_str()).collect();
    assert_eq!(code_variants, vec!["Kgm", "Kgs", "Code2a", "X1"]);
}

#[test]
fn parse_normalizes_text() {
    let a1 = vec![row(&["h"]), annex_i("", "OHM", "ohm \u{2126} e\u{301}")];
    let records = parse(&a1, &vec![]);
    assert_eq!(records[0].name, "ohm \u{3A9} \u{E9}");
}

#[test]
fn parse_of_empty_sheets_is_empty() {
    assert!(parse(&vec![], &vec![]).is_empty());
    assert!(parse(&vec![row(&["h"])], &vec![row(&["h"])]).is_empty());
}

#[test]
fn parse_keeps_variant_names_unique_when_suffixes_collide() {
    let a1 = vec![
        row(&["h"]),
        annex_i("", "X1", "a"),
        annex_i("", "X2", "a b"),
        annex_i("", "B", "a"),
    ];
    let records = parse(&a1, &vec![]);
    let variants: Vec<&str> = records.iter().map(|r| r.variant.as_str()).collect();
    assert_eq!(variants, vec!["A", "AB", "ABB"]);
    let code_variants: Vec<&str> = records.iter().map(|r| r.code_variant.as_str()).collect();
    assert_eq!(code_variants, vec!["X1", "X2", "B"]);
}

#[test]
fn parse_code_variants_unique_for_codes_with_same_camel_case() {
    let a1 = vec![
        row(&["h"]),
        annex_i("", "AB", "one"),
        annex_i("", "ab", "two"),
        annex_i("", "--", "three"),
        annex_i("", "..", "four"),
    ];
    let records = parse(&a1, &vec![]);
    let code_variants: Vec<&str> = records.iter().map(|r| r.code_variant.as_str()).collect();
    assert_eq!(code_variants, vec!["Ab", "AbAb", "Code", "Code_"]);
}

#[test]
fn number_text_is_never_empty_nor_padded() {
    assert!(NumberText::new("1.5".to_string()).is_some());
    assert!(NumberText::new(" 1.5".to_string()).is_none());
    assert!(NumberText::new("1.5\n".to_string()).is_none());
    assert!(NumberText::new(String::new()).is_none());
    assert_eq!(cell(&CellValue::Decimal(NumberText::new((0.1f64 + 0.2).to_string()).unwrap())), Some((0.1f64 + 0.2).to_string()));
}

#[test]
fn parse_fields_are_trimmed_and_normalised() {
    let a1 = vec![row(&["h"]), annex_i("", " KGM ", " kilo\u{2126}gram ")];
    let records = parse(&a1, &vec![]);
    assert_eq!(records[0].code, "KGM");
    assert_eq!(records[0].name, "kilo\u{3A9}gram");
    assert!(!records[0].name.contains('\u{2126}'));
}
