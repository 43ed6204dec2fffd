//! Identifier names derived from unit names and codes.
use vstd::prelude::*;
use vstd::string::*;
use heck::ToPascalCase;
use crate::text::{
    ascii_lower_seq, ascii_lowercase, ascii_upper, char_ascii_upper, char_is_ascii_alnum,
    char_is_ascii_digit, chars_of, is_ascii_alnum, is_ascii_digit, is_whitespace,
    lemma_trim_shape, string_in, strings_view, trim, trim_str,
};

verus! {

/// An ASCII letter, an ASCII digit or a space.
pub open spec fn is_name_char(c: char) -> bool {
    is_ascii_alnum(c) || c == ' '
}

/// Every character of `s` is an ASCII letter, an ASCII digit or a space.
pub open spec fn all_name_chars(s: Seq<char>) -> bool {
    forall|k: int| 0 <= k < s.len() ==> is_name_char(#[trigger] s[k])
}

/// `s` holds an ASCII letter or digit.
pub open spec fn has_alnum(s: Seq<char>) -> bool {
    exists|k: int| 0 <= k < s.len() && is_ascii_alnum(#[trigger] s[k])
}

/// Position `k` holds the first ASCII letter or digit of `s`.
pub open spec fn first_alnum_at(s: Seq<char>, k: int) -> bool {
    &&& 0 <= k < s.len()
    &&& is_ascii_alnum(s[k])
    &&& forall|j: int| 0 <= j < k ==> !is_ascii_alnum(#[trigger] s[j])
}

/// An ASCII upper-case letter.
pub open spec fn is_ascii_upper(c: char) -> bool {
    'A' <= c && c <= 'Z'
}

/// What `heck`'s upper camel case conversion (`ToPascalCase::to_pascal_case`)
/// gives for a string.
pub uninterp spec fn pascal_case_of(s: Seq<char>) -> Seq<char>;

/// Calls `heck::ToPascalCase::to_pascal_case`. Claimed: the result is the
/// named conversion of the argument; it is the same for the argument with
/// leading and trailing whitespace removed (heck splits words at every
/// non-alphanumeric character and drops empty words). For an argument of
/// ASCII letters, digits and spaces only, the source shows more: the result
/// is empty exactly when there is no letter or digit; it holds ASCII
/// letters and digits only; and it begins with the upper case of the first
/// letter or digit (the first word is capitalised). Nothing is claimed of
/// other characters of the result.
#[verifier::external_body]
fn to_pascal_case(s: &str) -> (r: String)
    ensures
        r@ == pascal_case_of(s@),
        r@ == pascal_case_of(trim(s@)),
        all_name_chars(s@) ==> (r@.len() == 0 <==> !has_alnum(s@)),
        all_name_chars(s@) ==> forall|k: int| 0 <= k < r@.len() ==> is_ascii_alnum(#[trigger] r@[k]),
        all_name_chars(s@) ==> forall|k: int|
            first_alnum_at(s@, k) ==> r@.len() > 0 && r@[0] == ascii_upper(#[trigger] s@[k]),
{
    s.to_pascal_case()
}

/// The per-character rewrites that the naming rules apply before or after
/// case conversion.
pub enum CharRewrite {
    /// Keep ASCII letters, digits and spaces; anything else becomes a space.
    NameClean,
    /// Keep ASCII letters and digits; anything else becomes a space.
    CodeClean,
    /// Upper-case ASCII letters, keep digits; anything else becomes `_`.
    UpperIdent,
    /// Keep ASCII letters and digits; anything else becomes `_`.
    KeepIdent,
}

/// The rewrite of one character.
pub open spec fn rewrite_char(mode: CharRewrite, c: char) -> char {
    match mode {
        CharRewrite::NameClean => if is_ascii_alnum(c) || c == ' ' { c } else { ' ' },
        CharRewrite::CodeClean => if is_ascii_alnum(c) { c } else { ' ' },
        CharRewrite::UpperIdent => if is_ascii_alnum(c) { ascii_upper(c) } else { '_' },
        CharRewrite::KeepIdent => if is_ascii_alnum(c) { c } else { '_' },
    }
}

/// The rewrite of every character of `s`.
pub open spec fn rewrite_seq(mode: CharRewrite, s: Seq<char>) -> Seq<char> {
    s.map_values(|c: char| rewrite_char(mode, c))
}

/// `s` is non-empty and begins with an ASCII digit.
pub open spec fn starts_with_digit(s: Seq<char>) -> bool {
    s.len() > 0 && is_ascii_digit(s[0])
}

/// The text `Code`.
pub open spec fn code_prefix() -> Seq<char> {
    seq!['C', 'o', 'd', 'e']
}

/// The text `test_`.
pub open spec fn test_prefix() -> Seq<char> {
    seq!['t', 'e', 's', 't', '_']
}

/// The text `test_code_`.
pub open spec fn test_code_prefix() -> Seq<char> {
    seq!['t', 'e', 's', 't', '_', 'c', 'o', 'd', 'e', '_']
}

/// The variant name chosen from the upper camel case `base` of a unit's
/// name: `base` itself, or, where it is empty or begins with a digit, `_`
/// followed by the code with letters upper-cased and other non-alphanumerics
/// as `_`.
pub open spec fn pascal_fallback(base: Seq<char>, code: Seq<char>) -> Seq<char> {
    if base.len() == 0 || starts_with_digit(base) {
        seq!['_'] + rewrite_seq(CharRewrite::UpperIdent, code)
    } else {
        base
    }
}

/// The variant name that a unit's name gives: `pascal_fallback` of the upper
/// camel case of the name with every character but ASCII letters, digits and
/// spaces blanked out and then trimmed.
pub open spec fn pascal_name(name: Seq<char>, code: Seq<char>) -> Seq<char> {
    pascal_fallback(pascal_case_of(trim(rewrite_seq(CharRewrite::NameClean, name))), code)
}

/// The suffix chosen from the upper camel case `p` of a code: `p`, prefixed
/// by `Code` when it begins with a digit.
pub open spec fn suffix_from_pascal(p: Seq<char>) -> Seq<char> {
    if starts_with_digit(p) {
        code_prefix() + p
    } else {
        p
    }
}

/// The suffix that tells apart two variants with the same base name.
pub open spec fn code_suffix(code: Seq<char>) -> Seq<char> {
    suffix_from_pascal(pascal_case_of(rewrite_seq(CharRewrite::CodeClean, code)))
}

/// The code variant name chosen from the upper camel case `base` of a code:
/// `base`, prefixed by `Code` when it is empty or begins with a digit.
pub open spec fn code_variant_from_pascal(base: Seq<char>) -> Seq<char> {
    if base.len() == 0 || starts_with_digit(base) {
        code_prefix() + base
    } else {
        base
    }
}

/// The code-enum variant name of a code.
pub open spec fn code_variant_name(code: Seq<char>) -> Seq<char> {
    code_variant_from_pascal(pascal_case_of(trim(rewrite_seq(CharRewrite::CodeClean, code))))
}

/// The name of the generated test of a code: the lower-cased code with
/// non-alphanumerics as `_`, after `test_`, or after `test_code_` when it
/// begins with a digit.
pub open spec fn test_name(code: Seq<char>) -> Seq<char> {
    let s = rewrite_seq(CharRewrite::KeepIdent, ascii_lower_seq(code));
    if starts_with_digit(s) {
        test_code_prefix() + s
    } else {
        test_prefix() + s
    }
}

/// The longest length among `used`.
pub open spec fn max_len(used: Seq<Seq<char>>) -> nat
    decreases used.len(),
{
    if used.len() == 0 {
        0
    } else {
        let m = max_len(used.drop_last());
        if used.last().len() > m {
            used.last().len()
        } else {
            m
        }
    }
}

/// How far `cand` is from being longer than every name of `used`.
pub open spec fn room(cand: Seq<char>, used: Seq<Seq<char>>) -> nat {
    if cand.len() <= max_len(used) {
        (max_len(used) + 1 - cand.len()) as nat
    } else {
        0
    }
}

/// What is appended to a taken name: the code suffix, or `_` when the
/// suffix is empty.
pub open spec fn extension(suffix: Seq<char>) -> Seq<char> {
    if suffix.len() > 0 {
        suffix
    } else {
        seq!['_']
    }
}

/// The first of `cand`, `cand + ext`, `cand + ext + ext`, ... that no name
/// of `used` equals.
pub open spec fn first_free(cand: Seq<char>, ext: Seq<char>, used: Seq<Seq<char>>) -> Seq<char>
    decreases room(cand, used),
{
    if used.contains(cand) && ext.len() > 0 && cand.len() <= max_len(used) {
        first_free(cand + ext, ext, used)
    } else {
        cand
    }
}

/// The names given to the first `n` of a list of base names: each takes
/// its base name when no earlier one took it, and otherwise the base name
/// with its code suffix (or `_`) appended as often as needed to make it
/// new. Wherever counting base names (`count_rule_name`) already gives
/// pairwise distinct names, these are the same names
/// (`lemma_assigned_agrees_with_count_rule`); where counting repeats a
/// name, these stay distinct.
pub open spec fn assigned(bases: Seq<Seq<char>>, suffixes: Seq<Seq<char>>, n: int) -> Seq<
    Seq<char>,
>
    decreases n,
{
    if n <= 0 {
        Seq::empty()
    } else {
        let prev = assigned(bases, suffixes, n - 1);
        prev.push(first_free(bases[n - 1], extension(suffixes[n - 1]), prev))
    }
}

fn rewrite_char_exec(mode: &CharRewrite, c: char) -> (r: char)
    ensures
        r == rewrite_char(*mode, c),
{
    match mode {
        CharRewrite::NameClean => if char_is_ascii_alnum(c) || c == ' ' { c } else { ' ' },
        CharRewrite::CodeClean => if char_is_ascii_alnum(c) { c } else { ' ' },
        CharRewrite::UpperIdent => if char_is_ascii_alnum(c) { char_ascii_upper(c) } else { '_' },
        CharRewrite::KeepIdent => if char_is_ascii_alnum(c) { c } else { '_' },
    }
}

/// Applies one rewrite to every character of `s`.
pub fn rewrite_str(mode: CharRewrite, s: &str) -> (r: String)
    ensures
        r@ == rewrite_seq(mode, s@),
{
    let v = chars_of(s);
    let mut out = String::new();
    let mut k: usize = 0;
    while k < v.len()
        invariant
            k <= v@.len(),
            v@ == s@,
            out@ == rewrite_seq(mode, v@.take(k as int)),
        decreases v@.len() - k,
    {
        out.push(rewrite_char_exec(&mode, v[k]));
        assert(rewrite_seq(mode, v@.take(k + 1)) =~= rewrite_seq(mode, v@.take(k as int)).push(
            rewrite_char(mode, v@[k as int]),
        ));
        k = k + 1;
    }
    assert(v@.take(v@.len() as int) =~= v@);
    out
}

fn str_starts_with_digit(s: &str) -> (r: bool)
    ensures
        r == starts_with_digit(s@),
{
    if s.unicode_len() == 0 {
        false
    } else {
        char_is_ascii_digit(s.get_char(0))
    }
}

fn code_prefix_string() -> (r: String)
    ensures
        r@ == code_prefix(),
{
    let r = String::from_str("Code");
    proof {
        reveal_strlit("Code");
    }
    assert(r@ =~= code_prefix());
    r
}

/// Blanking out characters keeps the ASCII letters and digits where they
/// are and leaves only letters, digits and spaces.
proof fn lemma_clean(mode: CharRewrite, s: Seq<char>)
    requires
        mode == CharRewrite::NameClean || mode == CharRewrite::CodeClean,
    ensures
        all_name_chars(rewrite_seq(mode, s)),
        rewrite_seq(mode, s).len() == s.len(),
        forall|k: int|
            0 <= k < s.len() ==> (is_ascii_alnum(#[trigger] rewrite_seq(mode, s)[k])
                <==> is_ascii_alnum(s[k])),
        forall|k: int|
            0 <= k < s.len() && is_ascii_alnum(s[k]) ==> #[trigger] rewrite_seq(mode, s)[k] == s[k],
{
}

/// An ASCII string with a letter or digit has a first one.
proof fn lemma_first_alnum(s: Seq<char>) -> (k: int)
    requires
        has_alnum(s),
    ensures
        first_alnum_at(s, k),
    decreases s.len(),
{
    if has_alnum(s.drop_last()) {
        let k = lemma_first_alnum(s.drop_last());
        assert forall|j: int| 0 <= j < k implies !is_ascii_alnum(#[trigger] s[j]) by {
            assert(s[j] == s.drop_last()[j]);
        }
        k
    } else {
        let k = s.len() - 1;
        assert forall|j: int| 0 <= j < k implies !is_ascii_alnum(#[trigger] s[j]) by {
            assert(s[j] == s.drop_last()[j]);
        }
        let w = choose|w: int| 0 <= w < s.len() && is_ascii_alnum(#[trigger] s[w]);
        if w < k {
            assert(s.drop_last()[w] == s[w]);
        }
        k
    }
}

/// Trimming keeps the letters and digits, and the first of them.
proof fn lemma_trim_alnum(c: Seq<char>) -> (a: int)
    ensures
        all_name_chars(c) ==> all_name_chars(trim(c)),
        has_alnum(trim(c)) <==> has_alnum(c),
        forall|k: int|
            #[trigger] first_alnum_at(c, k) ==> first_alnum_at(trim(c), k - a) && trim(c)[k - a]
                == c[k],
{
    let (a, b) = lemma_trim_shape(c);
    let t = trim(c);
    assert forall|k: int| 0 <= k < t.len() implies #[trigger] t[k] == c[k + a] by {}
    if all_name_chars(c) {
        assert forall|k: int| 0 <= k < t.len() implies is_name_char(#[trigger] t[k]) by {
            assert(t[k] == c[k + a]);
        }
    }
    if has_alnum(c) {
        let w = choose|w: int| 0 <= w < c.len() && is_ascii_alnum(#[trigger] c[w]);
        if w < a {
            assert(is_whitespace(c[w]));
        }
        if w >= b {
            assert(is_whitespace(c[w]));
        }
        assert(t[w - a] == c[w]);
    }
    if has_alnum(t) {
        let w = choose|w: int| 0 <= w < t.len() && is_ascii_alnum(#[trigger] t[w]);
        assert(t[w] == c[w + a]);
    }
    assert forall|k: int| #[trigger] first_alnum_at(c, k) implies first_alnum_at(t, k - a)
        && t[k - a] == c[k] by {
        if k < a {
            assert(is_whitespace(c[k]));
        }
        if k >= b {
            assert(is_whitespace(c[k]));
        }
        assert(t[k - a] == c[k]);
        assert forall|j: int| 0 <= j < k - a implies !is_ascii_alnum(#[trigger] t[j]) by {
            assert(t[j] == c[j + a]);
        }
    }
    a
}

/// The variant name chosen from the upper camel case `base` of a unit's
/// name.
pub fn pascal_from_base(base: String, code: &str) -> (r: String)
    ensures
        r@ == pascal_fallback(base@, code@),
{
    if base.as_str().unicode_len() == 0 || str_starts_with_digit(base.as_str()) {
        let mut out = String::new();
        out.push('_');
        let tail = rewrite_str(CharRewrite::UpperIdent, code);
        out.append(tail.as_str());
        assert(out@ =~= seq!['_'] + rewrite_seq(CharRewrite::UpperIdent, code@));
        out
    } else {
        base
    }
}

/// The variant name of a unit with the given name and code. It is the
/// `_`-prefixed code exactly when the name has no ASCII letter or digit or
/// its first one is a digit; otherwise the upper camel case of the name.
/// Either way it is non-empty, holds only ASCII letters, digits and `_`,
/// and begins with `_` or an upper-case letter; it holds `_` only when it
/// begins with `_`.
pub fn pascal(name: &str, code: &str) -> (r: String)
    ensures
        r@ == pascal_name(name@, code@),
        (!has_alnum(name@) || exists|m: int| first_alnum_at(name@, m) && is_ascii_digit(name@[m]))
            ==> r@ == seq!['_'] + rewrite_seq(CharRewrite::UpperIdent, code@),
        (has_alnum(name@) && forall|m: int| first_alnum_at(name@, m) ==> !is_ascii_digit(name@[m]))
            ==> r@ == pascal_case_of(trim(rewrite_seq(CharRewrite::NameClean, name@))),
        r@.len() > 0,
        forall|k: int| 0 <= k < r@.len() ==> is_ascii_alnum(#[trigger] r@[k]) || r@[k] == '_',
        r@[0] == '_' || is_ascii_upper(r@[0]),
        (exists|k: int| 0 <= k < r@.len() && #[trigger] r@[k] == '_') ==> r@[0] == '_',
{
    let cleaned = rewrite_str(CharRewrite::NameClean, name);
    let trimmed = trim_str(cleaned.as_str());
    let base = to_pascal_case(trimmed.as_str());
    proof {
        let c = cleaned@;
        lemma_clean(CharRewrite::NameClean, name@);
        let a = lemma_trim_alnum(c);
        if has_alnum(name@) {
            let w = choose|w: int| 0 <= w < name@.len() && is_ascii_alnum(#[trigger] name@[w]);
            assert(is_ascii_alnum(c[w]));
            let m = lemma_first_alnum(name@);
            assert forall|j: int| 0 <= j < m implies !is_ascii_alnum(#[trigger] c[j]) by {
                assert(!is_ascii_alnum(name@[j]));
            }
            assert(first_alnum_at(c, m));
            assert(c[m] == name@[m]);
            assert(base@[0] == ascii_upper(name@[m]));
            assert forall|m2: int| first_alnum_at(name@, m2) implies m2 == m by {
                if m2 < m {
                    assert(!is_ascii_alnum(name@[m2]));
                }
                if m < m2 {
                    assert(!is_ascii_alnum(name@[m]));
                }
            }
        } else {
            if has_alnum(c) {
                let w = choose|w: int| 0 <= w < c.len() && is_ascii_alnum(#[trigger] c[w]);
                assert(is_ascii_alnum(name@[w]));
            }
        }
    }
    let r = pascal_from_base(base, code);
    proof {
        if r@ == seq!['_'] + rewrite_seq(CharRewrite::UpperIdent, code@) {
            assert forall|k: int| 0 <= k < r@.len() implies is_ascii_alnum(#[trigger] r@[k]) || r@[k]
                == '_' by {
                if k > 0 {
                    assert(r@[k] == rewrite_char(CharRewrite::UpperIdent, code@[k - 1]));
                }
            }
        }
    }
    r
}

/// The suffix chosen from the upper camel case `p` of a code.
pub fn code_suffix_from_pascal(p: String) -> (r: String)
    ensures
        r@ == suffix_from_pascal(p@),
{
    if str_starts_with_digit(p.as_str()) {
        code_prefix_string().concat(p.as_str())
    } else {
        p
    }
}

/// What blanking out keeps of the letters and digits: whether there are
/// any, and which is first.
proof fn lemma_clean_first(mode: CharRewrite, s: Seq<char>)
    requires
        mode == CharRewrite::NameClean || mode == CharRewrite::CodeClean,
    ensures
        has_alnum(rewrite_seq(mode, s)) <==> has_alnum(s),
        forall|m: int|
            #[trigger] first_alnum_at(s, m) ==> first_alnum_at(rewrite_seq(mode, s), m)
                && rewrite_seq(mode, s)[m] == s[m],
{
    let c = rewrite_seq(mode, s);
    lemma_clean(mode, s);
    if has_alnum(s) {
        let w = choose|w: int| 0 <= w < s.len() && is_ascii_alnum(#[trigger] s[w]);
        assert(is_ascii_alnum(c[w]));
    }
    if has_alnum(c) {
        let w = choose|w: int| 0 <= w < c.len() && is_ascii_alnum(#[trigger] c[w]);
        assert(is_ascii_alnum(s[w]));
    }
    assert forall|m: int| #[trigger] first_alnum_at(s, m) implies first_alnum_at(c, m) && c[m]
        == s[m] by {
        assert forall|j: int| 0 <= j < m implies !is_ascii_alnum(#[trigger] c[j]) by {
            assert(!is_ascii_alnum(s[j]));
        }
    }
}

/// The suffix appended to a variant name that an earlier unit already took.
/// It is empty exactly when the code has no ASCII letter or digit; it holds
/// only ASCII letters and digits, and when non-empty begins with an
/// upper-case letter. The code variant name of the same code is this
/// suffix, or `Code` when the suffix is empty.
pub fn code_suffix_pascal(code: &str) -> (r: String)
    ensures
        r@ == code_suffix(code@),
        code_variant_name(code@) == (if r@.len() == 0 {
            code_prefix()
        } else {
            r@
        }),
        r@.len() == 0 <==> !has_alnum(code@),
        forall|k: int| 0 <= k < r@.len() ==> is_ascii_alnum(#[trigger] r@[k]),
        r@.len() > 0 ==> is_ascii_upper(r@[0]),
{
    let cleaned = rewrite_str(CharRewrite::CodeClean, code);
    let p = to_pascal_case(cleaned.as_str());
    let ghost pv = p@;
    proof {
        lemma_clean(CharRewrite::CodeClean, code@);
        lemma_clean_first(CharRewrite::CodeClean, code@);
        if has_alnum(code@) {
            let m = lemma_first_alnum(code@);
            assert(first_alnum_at(cleaned@, m));
            assert(pv[0] == ascii_upper(code@[m]));
        }
    }
    let r = code_suffix_from_pascal(p);
    assert(code_variant_name(code@) == code_variant_from_pascal(pv));
    proof {
        if starts_with_digit(pv) {
            assert(r@ == code_prefix() + pv);
            assert forall|k: int| 0 <= k < r@.len() implies is_ascii_alnum(#[trigger] r@[k]) by {
                if k >= 4 {
                    assert(r@[k] == pv[k - 4]);
                }
            }
        }
    }
    r
}

/// The code variant name chosen from the upper camel case `base` of a code.
pub fn code_variant_from_base(base: String) -> (r: String)
    ensures
        r@ == code_variant_from_pascal(base@),
{
    if base.as_str().unicode_len() == 0 || str_starts_with_digit(base.as_str()) {
        code_prefix_string().concat(base.as_str())
    } else {
        base
    }
}

/// The code-enum variant name of a code. It is non-empty, holds only ASCII
/// letters and digits, and begins with an upper-case letter; it begins with
/// `Code` when the code has no ASCII letter or digit or its first one is a
/// digit.
pub fn code_variant(code: &str) -> (r: String)
    ensures
        r@ == code_variant_name(code@),
        r@.len() > 0,
        forall|k: int| 0 <= k < r@.len() ==> is_ascii_alnum(#[trigger] r@[k]),
        is_ascii_upper(r@[0]),
        (!has_alnum(code@) || exists|m: int| first_alnum_at(code@, m) && is_ascii_digit(code@[m]))
            ==> r@.len() >= 4 && r@.subrange(0, 4) == code_prefix(),
        !has_alnum(code@) ==> r@ == code_prefix(),
{
    let cleaned = rewrite_str(CharRewrite::CodeClean, code);
    let trimmed = trim_str(cleaned.as_str());
    let base = to_pascal_case(trimmed.as_str());
    proof {
        let c = cleaned@;
        lemma_clean(CharRewrite::CodeClean, code@);
        let a = lemma_trim_alnum(c);
        if has_alnum(code@) {
            let w = choose|w: int| 0 <= w < code@.len() && is_ascii_alnum(#[trigger] code@[w]);
            assert(is_ascii_alnum(c[w]));
            let m = lemma_first_alnum(code@);
            assert forall|j: int| 0 <= j < m implies !is_ascii_alnum(#[trigger] c[j]) by {
                assert(!is_ascii_alnum(code@[j]));
            }
            assert(first_alnum_at(c, m));
            assert(c[m] == code@[m]);
            assert(base@[0] == ascii_upper(code@[m]));
            assert forall|m2: int| first_alnum_at(code@, m2) implies m2 == m by {
                if m2 < m {
                    assert(!is_ascii_alnum(code@[m2]));
                }
                if m < m2 {
                    assert(!is_ascii_alnum(code@[m]));
                }
            }
        } else {
            if has_alnum(c) {
                let w = choose|w: int| 0 <= w < c.len() && is_ascii_alnum(#[trigger] c[w]);
                assert(is_ascii_alnum(code@[w]));
            }
        }
    }
    let ghost bv = base@;
    let r = code_variant_from_base(base);
    proof {
        if bv.len() == 0 || starts_with_digit(bv) {
            assert(r@ == code_prefix() + bv);
            assert(r@.subrange(0, 4) =~= code_prefix());
            assert forall|k: int| 0 <= k < r@.len() implies is_ascii_alnum(#[trigger] r@[k]) by {
                if k >= 4 {
                    assert(r@[k] == bv[k - 4]);
                }
            }
        }
    }
    r
}

/// The name of the generated test of a code.
pub fn test_fn_name(code: &str) -> (r: String)
    ensures
        r@ == test_name(code@),
{
    let lower = ascii_lowercase(code);
    let sanitized = rewrite_str(CharRewrite::KeepIdent, lower.as_str());
    if str_starts_with_digit(sanitized.as_str()) {
        let p = String::from_str("test_code_");
        proof {
            reveal_strlit("test_code_");
        }
        assert(p@ =~= test_code_prefix());
        p.concat(sanitized.as_str())
    } else {
        let p = String::from_str("test_");
        proof {
            reveal_strlit("test_");
        }
        assert(p@ =~= test_prefix());
        p.concat(sanitized.as_str())
    }
}

/// A variant name never is empty and never begins with an ASCII digit, so
/// it can start a Rust identifier.
pub proof fn lemma_pascal_name_is_identifier_start(name: Seq<char>, code: Seq<char>)
    ensures
        pascal_name(name, code).len() > 0,
        !starts_with_digit(pascal_name(name, code)),
{
}

/// A code-enum variant name never is empty and never begins with an ASCII
/// digit.
pub proof fn lemma_code_variant_name_is_identifier_start(code: Seq<char>)
    ensures
        code_variant_name(code).len() > 0,
        !starts_with_digit(code_variant_name(code)),
{
}

/// A disambiguating suffix never begins with an ASCII digit.
pub proof fn lemma_code_suffix_has_no_leading_digit(code: Seq<char>)
    ensures
        !starts_with_digit(code_suffix(code)),
{
}

/// A generated test name always begins with `test_`, and is followed only
/// by ASCII letters, digits and `_`.
pub proof fn lemma_test_name_shape(code: Seq<char>)
    ensures
        test_name(code).len() >= 5,
        test_name(code).subrange(0, 5) == test_prefix(),
        forall|k: int|
            5 <= k < test_name(code).len() ==> {
                let c = #[trigger] test_name(code)[k];
                is_ascii_alnum(c) || c == '_'
            },
{
    let s = rewrite_seq(CharRewrite::KeepIdent, ascii_lower_seq(code));
    assert(test_code_prefix().subrange(0, 5) =~= test_prefix());
    if starts_with_digit(s) {
        assert(test_name(code).subrange(0, 5) =~= test_prefix());
    } else {
        assert(test_name(code).subrange(0, 5) =~= test_prefix());
    }
}

/// No name of `used` is longer than `max_len(used)`.
pub proof fn lemma_max_len(used: Seq<Seq<char>>, k: int)
    requires
        0 <= k < used.len(),
    ensures
        used[k].len() <= max_len(used),
    decreases used.len(),
{
    if k < used.len() - 1 {
        lemma_max_len(used.drop_last(), k);
        assert(used.drop_last()[k] == used[k]);
    }
}

/// The free name is new, and begins with the candidate.
pub proof fn lemma_first_free(cand: Seq<char>, ext: Seq<char>, used: Seq<Seq<char>>)
    requires
        ext.len() > 0,
    ensures
        !used.contains(first_free(cand, ext, used)),
        first_free(cand, ext, used).len() >= cand.len(),
        first_free(cand, ext, used).subrange(0, cand.len() as int) == cand,
    decreases room(cand, used),
{
    let r = first_free(cand, ext, used);
    if used.contains(cand) {
        let k = choose|k: int| 0 <= k < used.len() && used[k] == cand;
        lemma_max_len(used, k);
        let next = cand + ext;
        lemma_first_free(next, ext, used);
        assert(r.subrange(0, cand.len() as int) =~= r.subrange(0, next.len() as int).subrange(
            0,
            cand.len() as int,
        ));
        assert(next.subrange(0, cand.len() as int) =~= cand);
    } else {
        assert(r.subrange(0, cand.len() as int) =~= cand);
    }
}

/// The assigned names are one per base name, pairwise distinct, and each
/// begins with its base name.
pub proof fn lemma_assigned(bases: Seq<Seq<char>>, suffixes: Seq<Seq<char>>, n: int)
    requires
        0 <= n <= bases.len(),
    ensures
        assigned(bases, suffixes, n).len() == n,
        forall|i: int, j: int|
            0 <= i < j < n ==> #[trigger] assigned(bases, suffixes, n)[i] != #[trigger] assigned(
                bases,
                suffixes,
                n,
            )[j],
        forall|i: int|
            0 <= i < n ==> (#[trigger] assigned(bases, suffixes, n)[i]).len() >= bases[i].len()
                && assigned(bases, suffixes, n)[i].subrange(0, bases[i].len() as int) == bases[i],
    decreases n,
{
    if n > 0 {
        lemma_assigned(bases, suffixes, n - 1);
        let prev = assigned(bases, suffixes, n - 1);
        let cur = assigned(bases, suffixes, n);
        let ext = extension(suffixes[n - 1]);
        lemma_first_free(bases[n - 1], ext, prev);
        assert forall|i: int, j: int| 0 <= i < j < n implies #[trigger] cur[i] != #[trigger] cur[j] by {
            if j == n - 1 {
                assert(cur[i] == prev[i]);
                assert(prev.contains(prev[i]));
            } else {
                assert(cur[i] == prev[i]);
                assert(cur[j] == prev[j]);
            }
        }
        assert forall|i: int| 0 <= i < n implies (#[trigger] cur[i]).len() >= bases[i].len()
            && cur[i].subrange(0, bases[i].len() as int) == bases[i] by {
            if i < n - 1 {
                assert(cur[i] == prev[i]);
            }
        }
    }
}

/// The first of `base`, `base + ext`, `base + ext + ext`, ... that no
/// string of `used` equals, where `ext` is the `suffix`, or `_` when the
/// suffix is empty.
pub fn unique_name(base: String, suffix: &str, used: &Vec<String>) -> (r: String)
    ensures
        r@ == first_free(base@, extension(suffix@), strings_view(used@)),
        !strings_view(used@).contains(r@),
{
    let ext: String = if suffix.unicode_len() == 0 {
        let e = String::from_str("_");
        proof {
            reveal_strlit("_");
        }
        assert(e@ =~= seq!['_']);
        e
    } else {
        suffix.to_owned()
    };
    let ghost u = strings_view(used@);
    let ghost target = first_free(base@, ext@, u);
    let mut cand = base;
    while string_in(used, &cand)
        invariant
            ext@ == extension(suffix@),
            ext@.len() > 0,
            u == strings_view(used@),
            first_free(cand@, ext@, u) == target,
        decreases room(cand@, u),
    {
        proof {
            let k = choose|k: int| 0 <= k < u.len() && u[k] == cand@;
            lemma_max_len(u, k);
        }
        cand = cand.concat(ext.as_str());
    }
    proof {
        lemma_first_free(base@, ext@, u);
    }
    cand
}

/// Gives each base name its unique name, in order, as `assigned` says:
/// no two of the results are equal.
pub fn assign_unique_names(bases: &Vec<String>, suffixes: &Vec<String>) -> (r: Vec<String>)
    requires
        bases@.len() == suffixes@.len(),
    ensures
        strings_view(r@) == assigned(
            strings_view(bases@),
            strings_view(suffixes@),
            bases@.len() as int,
        ),
        forall|i: int, j: int| 0 <= i < j < r@.len() ==> (#[trigger] r@[i])@ != (#[trigger] r@[j])@,
{
    let ghost bv = strings_view(bases@);
    let ghost sv = strings_view(suffixes@);
    let mut out: Vec<String> = Vec::new();
    let mut k: usize = 0;
    while k < bases.len()
        invariant
            k <= bases@.len(),
            bases@.len() == suffixes@.len(),
            bv == strings_view(bases@),
            sv == strings_view(suffixes@),
            strings_view(out@) == assigned(bv, sv, k as int),
        decreases bases@.len() - k,
    {
        let ghost prev = out@;
        assert(bv[k as int] == bases@[k as int]@);
        assert(sv[k as int] == suffixes@[k as int]@);
        let name = unique_name(bases[k].clone(), suffixes[k].as_str(), &out);
        out.push(name);
        assert(strings_view(out@) =~= strings_view(prev).push(name@));
        k = k + 1;
    }
    proof {
        lemma_assigned(bv, sv, bases@.len() as int);
        assert forall|i: int, j: int| 0 <= i < j < out@.len() implies (#[trigger] out@[i])@ != (
        #[trigger] out@[j])@ by {
            assert(strings_view(out@)[i] == out@[i]@);
            assert(strings_view(out@)[j] == out@[j]@);
        }
    }
    out
}

/// The name that counting base names gives entry `i`: its base name when
/// no earlier entry has the same base name, and otherwise the base name
/// followed by its suffix. This rule can repeat a name.
pub open spec fn count_rule_name(bases: Seq<Seq<char>>, suffixes: Seq<Seq<char>>, i: int) -> Seq<
    char,
> {
    if exists|j: int| 0 <= j < i && bases[j] == bases[i] {
        bases[i] + suffixes[i]
    } else {
        bases[i]
    }
}

/// For an entry that shares its base name with an earlier one, some entry
/// up to it has that base name and keeps it under the count rule.
proof fn lemma_first_base_holder(bases: Seq<Seq<char>>, suffixes: Seq<Seq<char>>, j0: int) -> (j:
    int)
    requires
        0 <= j0 < bases.len(),
    ensures
        0 <= j <= j0,
        bases[j] == bases[j0],
        count_rule_name(bases, suffixes, j) == bases[j],
    decreases j0,
{
    if exists|k: int| 0 <= k < j0 && bases[k] == bases[j0] {
        let k = choose|k: int| 0 <= k < j0 && bases[k] == bases[j0];
        lemma_first_base_holder(bases, suffixes, k)
    } else {
        j0
    }
}

/// Where counting base names gives pairwise distinct names, the assigned
/// names are exactly those.
pub proof fn lemma_assigned_agrees_with_count_rule(
    bases: Seq<Seq<char>>,
    suffixes: Seq<Seq<char>>,
    n: int,
)
    requires
        0 <= n <= bases.len(),
        n <= suffixes.len(),
        forall|i: int, j: int|
            0 <= i < j < n ==> #[trigger] count_rule_name(bases, suffixes, i) != #[trigger] count_rule_name(
                bases,
                suffixes,
                j,
            ),
    ensures
        forall|i: int|
            0 <= i < n ==> #[trigger] assigned(bases, suffixes, n)[i] == count_rule_name(
                bases,
                suffixes,
                i,
            ),
    decreases n,
{
    if n > 0 {
        lemma_assigned_agrees_with_count_rule(bases, suffixes, n - 1);
        lemma_assigned(bases, suffixes, n - 1);
        let prev = assigned(bases, suffixes, n - 1);
        let b = bases[n - 1];
        let sfx = suffixes[n - 1];
        let ext = extension(sfx);
        let cur = assigned(bases, suffixes, n);
        let want = count_rule_name(bases, suffixes, n - 1);
        if exists|j: int| 0 <= j < n - 1 && bases[j] == b {
            let j0 = choose|j: int| 0 <= j < n - 1 && bases[j] == b;
            let j = lemma_first_base_holder(bases, suffixes, j0);
            assert(prev[j] == b);
            assert(prev.contains(b));
            lemma_max_len(prev, j);
            if sfx.len() == 0 {
                assert(want =~= b);
                assert(count_rule_name(bases, suffixes, j) != want);
            }
            assert(ext == sfx);
            assert(first_free(b, ext, prev) == first_free(b + ext, ext, prev));
            assert(!prev.contains(b + ext)) by {
                if prev.contains(b + ext) {
                    let k = choose|k: int| 0 <= k < prev.len() && prev[k] == b + ext;
                    assert(count_rule_name(bases, suffixes, k) != want);
                }
            }
        } else {
            assert(!prev.contains(b)) by {
                if prev.contains(b) {
                    let k = choose|k: int| 0 <= k < prev.len() && prev[k] == b;
                    assert(count_rule_name(bases, suffixes, k) != want);
                }
            }
        }
        assert forall|i: int| 0 <= i < n implies #[trigger] cur[i] == count_rule_name(
            bases,
            suffixes,
            i,
        ) by {
            if i < n - 1 {
                assert(cur[i] == prev[i]);
            }
        }
    }
}

} // verus!
