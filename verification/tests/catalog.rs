use cefact_units::catalog::{UnitCode, UnitOfMeasure, UnitTable, UnknownCode};
use cefact_units::sheet::CellValue;

fn text(s: &str) -> CellValue {
    CellValue::Text(s.to_string())
}

/// An Annex I row: sector, quantity, status, code, name, symbol.
fn annex_i_row(sector: &str, quantity: &str, status: &str, code: &str, name: &str, symbol: &str) -> Vec<CellValue> {
    vec![
        CellValue::Int(1),
        text(sector),
        text("1"),
        text(quantity),
        text("1"),
        text(status),
        text(code),
        text(name),
        text(""),
        text(symbol),
        CellValue::Other,
    ]
}

/// An Annex II/III row: status, code, name, description, level, symbol.
fn annex_ii_row(status: &str, code: &str, name: &str, description: &str, symbol: &str) -> Vec<CellValue> {
    vec![text(status), text(code), text(name), text(description), text("3.8"), text(symbol), CellValue::Other]
}

fn header(n: usize) -> Vec<CellValue> {
    (0..n).map(|i| text(&format!("column {i}"))).collect()
}

fn sample_table() -> UnitTable {
    let annex_i = vec![
        header(11),
        annex_i_row("Space and time", "length", "", "MTR", "metre", "m"),
        annex_i_row("Mechanics", "mass", "", "KGM", "kilogram", "kg"),
        annex_i_row("Space and time", "volume", "", "LTR", "litre", "l"),
        annex_i_row("Mechanics", "mass", "D", "OLD", "old unit", "o"),
    ];
    let annex_ii = vec![
        header(7),
        annex_ii_row("", "KGM", "kilogram", "A unit of mass.", ""),
        annex_ii_row("", "BX", "box", "A container.", ""),
        annex_ii_row("X", "ZZZ", "withdrawn", "", ""),
    ];
    UnitTable::from_sheets(&annex_i, &annex_ii)
}

#[test]
fn basic_lookup() {
    let table = sample_table();
    let kg = UnitOfMeasure::from_code(&table, "KGM").unwrap();
    assert_eq!(kg.name(&table), "kilogram");
    assert_eq!(kg.symbol(&table), Some("kg"));
}

#[test]
fn from_str_parses() {
    let table = sample_table();
    let parsed: UnitOfMeasure = UnitOfMeasure::from_str(&table, "MTR").unwrap();
    assert_eq!(parsed.code(&table), "MTR");
}

#[test]
fn unknown_code_fails() {
    let table = sample_table();
    assert!(UnitOfMeasure::from_code(&table, "INVALID").is_none());
    assert!(UnitOfMeasure::from_str(&table, "INVALID").is_err());
}

#[test]
fn unit_code_roundtrip() {
    let table = sample_table();
    let code: UnitCode = UnitCode::from_str(&table, "KGM").unwrap();
    assert_eq!(code.as_str(&table), "KGM");
    let unit = UnitOfMeasure::from_unit_code(code);
    assert_eq!(unit.unit_code(), code);
}

#[test]
fn case_insensitive_lookup() {
    let table = sample_table();
    let kg = UnitOfMeasure::from_code_ignore_case(&table, "kgm").unwrap();
    assert_eq!(kg.code(&table), "KGM");

    let parsed: UnitOfMeasure = UnitOfMeasure::from_str_ignore_case(&table, "mtr").unwrap();
    assert_eq!(parsed.code(&table), "MTR");
}

#[test]
fn lookup_is_case_sensitive_by_default() {
    let table = sample_table();
    assert!(UnitOfMeasure::from_code(&table, "kgm").is_none());
    assert!(UnitCode::from_code(&table, "mtr").is_none());
    assert_eq!(UnitCode::from_str(&table, "kgm"), Err(UnknownCode("kgm".to_string())));
}

#[test]
fn unknown_code_error_carries_text_and_message() {
    let table = sample_table();
    let err = UnitOfMeasure::from_str(&table, "INVALID").unwrap_err();
    assert_eq!(err, UnknownCode("INVALID".to_string()));
    assert_eq!(err.message(), "unknown UN/CEFACT unit code: \"INVALID\"");
    let err = UnitCode::try_from(&table, "a\"b").unwrap_err();
    assert_eq!(err.message(), "unknown UN/CEFACT unit code: \"a\\\"b\"");
}

#[test]
fn all_lists_units_in_source_order() {
    let table = sample_table();
    let all = table.all();
    assert_eq!(all.len(), table.len());
    let codes: Vec<&str> = all.iter().map(|u| u.code(&table)).collect();
    assert_eq!(codes, vec!["MTR", "KGM", "LTR", "BX"]);
    assert!(all[0] < all[1] && all[1] < all[2]);
}

#[test]
fn inactive_rows_are_left_out() {
    let table = sample_table();
    assert!(UnitOfMeasure::from_code(&table, "OLD").is_none());
    assert!(UnitOfMeasure::from_code(&table, "ZZZ").is_none());
}

#[test]
fn info_returns_all_fields() {
    let table = sample_table();
    let kg = UnitOfMeasure::from_code(&table, "KGM").unwrap();
    let info = kg.info(&table);
    assert_eq!(info.code, "KGM");
    assert_eq!(info.name, "kilogram");
    assert_eq!(info.symbol, Some("kg"));
    assert_eq!(info.quantity, Some("mass"));
    assert_eq!(kg.quantity(&table), Some("mass"));
    assert_eq!(kg.sector(&table), Some("Mechanics"));
    assert_eq!(kg.conversion_factor(&table), None);
    assert_eq!(kg.level_category(&table), Some("1"));
    assert_eq!(kg.description(&table), Some("A unit of mass."));
    assert_eq!(kg.to_string(&table), "KGM");

    let bx = UnitOfMeasure::try_from(&table, "BX").unwrap();
    assert_eq!(bx.name(&table), "box");
    assert_eq!(bx.quantity(&table), None);
    assert_eq!(bx.sector(&table), None);
    assert_eq!(bx.level_category(&table), Some("3.8"));
    assert_eq!(bx.symbol(&table), None);
    assert_eq!(bx.unit_code().to_string(&table), "BX");
}

#[test]
fn lookup_of_own_code_finds_the_unit() {
    let table = sample_table();
    for unit in table.all() {
        let code = unit.code(&table);
        assert_eq!(UnitOfMeasure::from_code(&table, code), Some(unit));
        assert_eq!(UnitCode::from_code(&table, code), Some(unit.unit_code()));
        assert_eq!(UnitOfMeasure::from_unit_code(unit.unit_code()), unit);
    }
}
