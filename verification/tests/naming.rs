use cefact_units::naming::{
    assign_unique_names, code_suffix_from_pascal, code_suffix_pascal, code_variant,
    code_variant_from_base, pascal, pascal_from_base, rewrite_str, test_fn_name, unique_name,
    CharRewrite,
};
use cefact_units::normalize::normalize_text;
use cefact_units::text::{ascii_lowercase, ascii_uppercase, decimal_string, trim_str};

#[test]
fn pascal_uses_the_name() {
    assert_eq!(pascal("kilogram", "KGM"), "Kilogram");
    assert_eq!(pascal("metre per second", "MTS"), "MetrePerSecond");
    assert_eq!(pascal("kilogram-force (kgf)", "B37"), "KilogramForceKgf");
}

#[test]
fn pascal_falls_back_to_the_code() {
    assert_eq!(pascal("10 kg drum", "X1a"), "_X1A");
    assert_eq!(pascal("", "k-g"), "_K_G");
    assert_eq!(pascal("%%%", "ab"), "_AB");
}

#[test]
fn code_variant_names() {
    assert_eq!(code_variant("KGM"), "Kgm");
    assert_eq!(code_variant("2A"), "Code2a");
    assert_eq!(code_variant("--"), "Code");
    assert_eq!(code_variant("A-B"), "AB");
}

#[test]
fn code_suffixes() {
    assert_eq!(code_suffix_pascal("KGS"), "Kgs");
    assert_eq!(code_suffix_pascal("2A"), "Code2a");
    assert_eq!(code_suffix_pascal(""), "");
}

#[test]
fn test_names() {
    assert_eq!(test_fn_name("KGM"), "test_kgm");
    assert_eq!(test_fn_name("2A"), "test_code_2a");
    assert_eq!(test_fn_name("X-1"), "test_x_1");
    assert_eq!(test_fn_name(""), "test_");
}

#[test]
fn normalize_text_maps_ohm_and_composes() {
    assert_eq!(normalize_text("\u{2126}".to_string()), "\u{3A9}");
    assert_eq!(normalize_text("e\u{301}".to_string()), "\u{E9}");
    assert_eq!(normalize_text("plain".to_string()), "plain");
}

#[test]
fn text_helpers() {
    assert_eq!(trim_str("\u{2003} a b \n"), "a b");
    assert_eq!(ascii_uppercase("kg\u{E9}m"), "KG\u{E9}M");
    assert_eq!(ascii_lowercase("KG\u{C9}M"), "kg\u{C9}m");
    assert_eq!(decimal_string(-120), "-120");
    assert_eq!(rewrite_str(CharRewrite::NameClean, "a-b c"), "a b c");
    assert_eq!(rewrite_str(CharRewrite::UpperIdent, "a-b"), "A_B");
}

#[test]
fn names_from_given_camel_case() {
    assert_eq!(pascal_from_base("Kilogram".to_string(), "KGM"), "Kilogram");
    assert_eq!(pascal_from_base("".to_string(), "a-1"), "_A_1");
    assert_eq!(pascal_from_base("2Pack".to_string(), "x"), "_X");
    assert_eq!(code_variant_from_base("".to_string()), "Code");
    assert_eq!(code_variant_from_base("2a".to_string()), "Code2a");
    assert_eq!(code_variant_from_base("Kgm".to_string()), "Kgm");
    assert_eq!(code_suffix_from_pascal("2a".to_string()), "Code2a");
    assert_eq!(code_suffix_from_pascal("".to_string()), "");
}

#[test]
fn unique_names_append_suffixes() {
    let s = |v: &[&str]| v.iter().map(|x| x.to_string()).collect::<Vec<String>>();
    assert_eq!(
        assign_unique_names(&s(&["A", "AB", "A"]), &s(&["X1", "X2", "B"])),
        s(&["A", "AB", "ABB"])
    );
    assert_eq!(
        assign_unique_names(&s(&["A", "A", "A"]), &s(&["", "", ""])),
        s(&["A", "A_", "A__"])
    );
    assert_eq!(unique_name("Kg".to_string(), "M", &s(&["Kg", "KgM"])), "KgMM");
    assert_eq!(unique_name("Kg".to_string(), "M", &s(&["Mg"])), "Kg");
}

#[test]
fn code_variant_is_suffix_or_code() {
    for code in ["KGM", "2A", "--", "", "a b", "x-1"] {
        let suffix = code_suffix_pascal(code);
        let expected = if suffix.is_empty() { "Code".to_string() } else { suffix };
        assert_eq!(code_variant(code), expected);
    }
}

#[test]
fn code_suffix_shape() {
    assert_eq!(code_suffix_pascal("--"), "");
    assert_eq!(code_suffix_pascal("kgm"), "Kgm");
    assert_eq!(code_variant("--"), "Code");
    assert_eq!(code_variant(""), "Code");
    for code in ["KGM", "2A", "a-b", "x1", "9"] {
        let s = code_suffix_pascal(code);
        assert!(!s.is_empty());
        assert!(s.chars().all(|c| c.is_ascii_alphanumeric()));
        assert!(s.starts_with(|c: char| c.is_ascii_uppercase()));
    }
}

#[test]
fn normalize_text_is_stable() {
    for s in ["\u{2126}m", "A\u{30A}", "e\u{301}\u{2126}", "plain ascii"] {
        let t = normalize_text(s.to_string());
        assert!(!t.contains('\u{2126}'));
        assert_eq!(normalize_text(t.clone()), t);
    }
    assert_eq!(normalize_text("\u{2126}".to_string()), normalize_text("\u{3A9}".to_string()));
}
