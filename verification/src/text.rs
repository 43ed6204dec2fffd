//! Character classes and string transformations on sequences of `char`.
use vstd::prelude::*;
use vstd::string::*;

verus! {

/// `String::push` appends one character at the end of the string.
pub assume_specification[ String::push ](s: &mut String, ch: char)
    ensures
        final(s)@ == old(s)@.push(ch),
;

/// ASCII decimal digit `0`..=`9`.
pub open spec fn is_ascii_digit(c: char) -> bool {
    '0' <= c && c <= '9'
}

/// ASCII letter or ASCII decimal digit.
pub open spec fn is_ascii_alnum(c: char) -> bool {
    ('0' <= c && c <= '9') || ('a' <= c && c <= 'z') || ('A' <= c && c <= 'Z')
}

/// Maps `a`..=`z` to `A`..=`Z`; every other character is kept.
pub open spec fn ascii_upper(c: char) -> char {
    if 'a' <= c && c <= 'z' {
        ((c as u32) - 32) as char
    } else {
        c
    }
}

/// Maps `A`..=`Z` to `a`..=`z`; every other character is kept.
pub open spec fn ascii_lower(c: char) -> char {
    if 'A' <= c && c <= 'Z' {
        ((c as u32) + 32) as char
    } else {
        c
    }
}

/// The Unicode `White_Space` property, which `char::is_whitespace` and
/// `str::trim` use.
pub open spec fn is_whitespace(c: char) -> bool {
    ||| ('\u{9}' <= c && c <= '\u{D}')
    ||| c == ' '
    ||| c == '\u{85}'
    ||| c == '\u{A0}'
    ||| c == '\u{1680}'
    ||| ('\u{2000}' <= c && c <= '\u{200A}')
    ||| c == '\u{2028}'
    ||| c == '\u{2029}'
    ||| c == '\u{202F}'
    ||| c == '\u{205F}'
    ||| c == '\u{3000}'
}

/// `s` without its leading whitespace.
pub open spec fn trim_start(s: Seq<char>) -> Seq<char>
    decreases s.len(),
{
    if s.len() > 0 && is_whitespace(s[0]) {
        trim_start(s.drop_first())
    } else {
        s
    }
}

/// `s` without its trailing whitespace.
pub open spec fn trim_end(s: Seq<char>) -> Seq<char>
    decreases s.len(),
{
    if s.len() > 0 && is_whitespace(s.last()) {
        trim_end(s.drop_last())
    } else {
        s
    }
}

/// `s` without leading and trailing whitespace, as `str::trim` gives it.
pub open spec fn trim(s: Seq<char>) -> Seq<char> {
    trim_end(trim_start(s))
}

/// Every character of `s` passed through `ascii_upper`.
pub open spec fn ascii_upper_seq(s: Seq<char>) -> Seq<char> {
    s.map_values(|c: char| ascii_upper(c))
}

/// Every character of `s` passed through `ascii_lower`.
pub open spec fn ascii_lower_seq(s: Seq<char>) -> Seq<char> {
    s.map_values(|c: char| ascii_lower(c))
}

/// The character of a decimal digit `d < 10`.
pub open spec fn digit_char(d: nat) -> char {
    ((d + 48) as u32) as char
}

/// Decimal digits of `n`, most significant first, without leading zeros.
pub open spec fn decimal_digits(n: nat) -> Seq<char>
    decreases n,
{
    if n < 10 {
        seq![digit_char(n)]
    } else {
        decimal_digits(n / 10).push(digit_char(n % 10))
    }
}

/// The decimal text of an integer, with a leading `-` when it is negative,
/// as `i64::to_string` writes it.
pub open spec fn decimal_text(i: int) -> Seq<char> {
    if i < 0 {
        seq!['-'] + decimal_digits((-i) as nat)
    } else {
        decimal_digits(i as nat)
    }
}

/// `c.is_ascii_digit()`.
pub fn char_is_ascii_digit(c: char) -> (r: bool)
    ensures
        r == is_ascii_digit(c),
{
    '0' <= c && c <= '9'
}

/// `c.is_ascii_alphanumeric()`.
pub fn char_is_ascii_alnum(c: char) -> (r: bool)
    ensures
        r == is_ascii_alnum(c),
{
    ('0' <= c && c <= '9') || ('a' <= c && c <= 'z') || ('A' <= c && c <= 'Z')
}

/// `c.to_ascii_uppercase()`.
pub fn char_ascii_upper(c: char) -> (r: char)
    ensures
        r == ascii_upper(c),
{
    if 'a' <= c && c <= 'z' {
        (c as u8 - 32) as char
    } else {
        c
    }
}

/// `c.to_ascii_lowercase()`.
pub fn char_ascii_lower(c: char) -> (r: char)
    ensures
        r == ascii_lower(c),
{
    if 'A' <= c && c <= 'Z' {
        (c as u8 + 32) as char
    } else {
        c
    }
}

/// `c.is_whitespace()`.
pub fn char_is_whitespace(c: char) -> (r: bool)
    ensures
        r == is_whitespace(c),
{
    ('\u{9}' <= c && c <= '\u{D}') || c == ' ' || c == '\u{85}' || c == '\u{A0}' || c == '\u{1680}'
        || ('\u{2000}' <= c && c <= '\u{200A}') || c == '\u{2028}' || c == '\u{2029}' || c
        == '\u{202F}' || c == '\u{205F}' || c == '\u{3000}'
}

/// The characters of `s`, in order.
pub fn chars_of(s: &str) -> (r: Vec<char>)
    ensures
        r@ == s@,
{
    let mut v: Vec<char> = Vec::new();
    for c in it: s.chars()
        invariant
            v@ == it.seq().take(it.index() as int),
            it.seq() == s@,
    {
        v.push(c);
    }
    v
}

/// A string of the characters `v[lo..hi]`.
pub fn string_of_range(v: &Vec<char>, lo: usize, hi: usize) -> (r: String)
    requires
        lo <= hi <= v@.len(),
    ensures
        r@ == v@.subrange(lo as int, hi as int),
{
    let mut out = String::new();
    let mut k = lo;
    while k < hi
        invariant
            lo <= k <= hi <= v@.len(),
            out@ == v@.subrange(lo as int, k as int),
        decreases hi - k,
    {
        out.push(v[k]);
        k = k + 1;
        assert(out@ =~= v@.subrange(lo as int, k as int));
    }
    out
}

/// `s.trim()`: `s` without leading and trailing Unicode whitespace.
pub fn trim_str(s: &str) -> (r: String)
    ensures
        r@ == trim(s@),
{
    let v = chars_of(s);
    let len = v.len();
    let mut i: usize = 0;
    assert(v@.subrange(0, len as int) =~= v@);
    while i < len && char_is_whitespace(v[i])
        invariant
            len == v@.len(),
            i <= len,
            trim_start(v@) == trim_start(v@.subrange(i as int, len as int)),
        decreases len - i,
    {
        let ghost sub = v@.subrange(i as int, len as int);
        assert(sub.drop_first() =~= v@.subrange(i + 1, len as int));
        i = i + 1;
    }
    proof {
        let sub = v@.subrange(i as int, len as int);
        if i < len {
            assert(sub[0] == v@[i as int]);
        }
        assert(trim_start(v@) == sub);
    }
    let mut j: usize = len;
    while j > i && char_is_whitespace(v[j - 1])
        invariant
            len == v@.len(),
            i <= j <= len,
            trim(v@) == trim_end(v@.subrange(i as int, j as int)),
        decreases j - i,
    {
        let ghost sub = v@.subrange(i as int, j as int);
        assert(sub.drop_last() =~= v@.subrange(i as int, j - 1));
        j = j - 1;
    }
    proof {
        let sub = v@.subrange(i as int, j as int);
        if j > i {
            assert(sub.last() == v@[j - 1]);
        }
        assert(trim_end(sub) == sub);
    }
    string_of_range(&v, i, j)
}

/// `s.to_ascii_uppercase()`.
pub fn ascii_uppercase(s: &str) -> (r: String)
    ensures
        r@ == ascii_upper_seq(s@),
{
    let v = chars_of(s);
    let mut out = String::new();
    let mut k: usize = 0;
    while k < v.len()
        invariant
            k <= v@.len(),
            v@ == s@,
            out@ == ascii_upper_seq(v@.take(k as int)),
        decreases v@.len() - k,
    {
        out.push(char_ascii_upper(v[k]));
        assert(ascii_upper_seq(v@.take(k + 1)) =~= ascii_upper_seq(v@.take(k as int)).push(
            ascii_upper(v@[k as int]),
        ));
        k = k + 1;
    }
    assert(v@.take(v@.len() as int) =~= v@);
    out
}

/// `s.to_ascii_lowercase()`.
pub fn ascii_lowercase(s: &str) -> (r: String)
    ensures
        r@ == ascii_lower_seq(s@),
{
    let v = chars_of(s);
    let mut out = String::new();
    let mut k: usize = 0;
    while k < v.len()
        invariant
            k <= v@.len(),
            v@ == s@,
            out@ == ascii_lower_seq(v@.take(k as int)),
        decreases v@.len() - k,
    {
        out.push(char_ascii_lower(v[k]));
        assert(ascii_lower_seq(v@.take(k + 1)) =~= ascii_lower_seq(v@.take(k as int)).push(
            ascii_lower(v@[k as int]),
        ));
        k = k + 1;
    }
    assert(v@.take(v@.len() as int) =~= v@);
    out
}

fn push_decimal_digits(n: u64, out: &mut String)
    ensures
        final(out)@ == old(out)@ + decimal_digits(n as nat),
    decreases n,
{
    if n >= 10 {
        push_decimal_digits(n / 10, out);
    }
    let d: u8 = (n % 10) as u8;
    let c: char = (d + 48) as char;
    proof {
        assert(c == digit_char((n % 10) as nat));
    }
    out.push(c);
    proof {
        if n >= 10 {
            assert(decimal_digits(n as nat) == decimal_digits((n / 10) as nat).push(
                digit_char((n % 10) as nat),
            ));
        }
    }
    assert(final(out)@ =~= old(out)@ + decimal_digits(n as nat));
}

/// `i.to_string()` for an `i64`: its decimal text.
pub fn decimal_string(i: i64) -> (r: String)
    ensures
        r@ == decimal_text(i as int),
{
    let mut out = String::new();
    if i < 0 {
        out.push('-');
        let magnitude: u64 = if i == i64::MIN {
            9223372036854775808u64
        } else {
            (-i) as u64
        };
        push_decimal_digits(magnitude, &mut out);
    } else {
        push_decimal_digits(i as u64, &mut out);
    }
    assert(out@ =~= decimal_text(i as int));
    out
}

/// Whether `s` is exactly the one character `c`.
pub fn is_single_char(s: &str, c: char) -> (r: bool)
    ensures
        r == (s@ == seq![c]),
{
    let n = s.unicode_len();
    if n == 1 {
        let first = s.get_char(0);
        assert(first == c ==> s@ =~= seq![c]);
        first == c
    } else {
        false
    }
}

} // verus!

verus! {

/// The character sequence of an optional string.
pub open spec fn opt_view(o: Option<String>) -> Option<Seq<char>> {
    match o {
        Some(s) => Some(s@),
        None => None,
    }
}

/// A copy of an optional string.
pub fn clone_opt(o: &Option<String>) -> (r: Option<String>)
    ensures
        opt_view(r) == opt_view(*o),
{
    match o {
        Some(s) => Some(s.clone()),
        None => None,
    }
}


/// The character sequences of a sequence of strings.
pub open spec fn strings_view(v: Seq<String>) -> Seq<Seq<char>> {
    v.map_values(|s: String| s@)
}

/// Whether some string of `v` equals `s`.
pub fn string_in(v: &Vec<String>, s: &String) -> (r: bool)
    ensures
        r == strings_view(v@).contains(s@),
{
    let mut k: usize = 0;
    while k < v.len()
        invariant
            k <= v@.len(),
            forall|j: int| 0 <= j < k ==> v@[j]@ != s@,
        decreases v@.len() - k,
    {
        if v[k] == *s {
            assert(strings_view(v@)[k as int] == s@);
            return true;
        }
        k = k + 1;
    }
    assert(!strings_view(v@).contains(s@)) by {
        if strings_view(v@).contains(s@) {
            let j = choose|j: int| 0 <= j < v@.len() && strings_view(v@)[j] == s@;
            assert(v@[j]@ == s@);
        }
    }
    false
}

/// `trim_start(s)` is `s` without a prefix of whitespace, and begins with
/// no whitespace.
pub proof fn lemma_trim_start_shape(s: Seq<char>) -> (a: int)
    ensures
        0 <= a <= s.len(),
        trim_start(s) == s.subrange(a, s.len() as int),
        forall|j: int| 0 <= j < a ==> is_whitespace(#[trigger] s[j]),
        a < s.len() ==> !is_whitespace(s[a]),
    decreases s.len(),
{
    if s.len() > 0 && is_whitespace(s[0]) {
        let a1 = lemma_trim_start_shape(s.drop_first());
        assert(s.drop_first().subrange(a1, s.drop_first().len() as int) =~= s.subrange(
            a1 + 1,
            s.len() as int,
        ));
        assert forall|j: int| 0 <= j < a1 + 1 implies is_whitespace(#[trigger] s[j]) by {
            if j > 0 {
                assert(s[j] == s.drop_first()[j - 1]);
            }
        }
        a1 + 1
    } else {
        assert(s.subrange(0, s.len() as int) =~= s);
        0
    }
}

/// `trim_end(s)` is `s` without a suffix of whitespace, and ends with no
/// whitespace.
pub proof fn lemma_trim_end_shape(s: Seq<char>) -> (b: int)
    ensures
        0 <= b <= s.len(),
        trim_end(s) == s.subrange(0, b),
        forall|j: int| b <= j < s.len() ==> is_whitespace(#[trigger] s[j]),
        b > 0 ==> !is_whitespace(s[b - 1]),
    decreases s.len(),
{
    if s.len() > 0 && is_whitespace(s.last()) {
        let b1 = lemma_trim_end_shape(s.drop_last());
        assert(s.drop_last().subrange(0, b1) =~= s.subrange(0, b1));
        assert forall|j: int| b1 <= j < s.len() implies is_whitespace(#[trigger] s[j]) by {
            if j < s.len() - 1 {
                assert(s[j] == s.drop_last()[j]);
            }
        }
        b1
    } else {
        assert(s.subrange(0, s.len() as int) =~= s);
        s.len() as int
    }
}

/// `trim(s)` is the part of `s` between a whitespace prefix and a
/// whitespace suffix, and neither begins nor ends with whitespace.
pub proof fn lemma_trim_shape(s: Seq<char>) -> (ab: (int, int))
    ensures
        0 <= ab.0 <= ab.1 <= s.len(),
        trim(s) == s.subrange(ab.0, ab.1),
        forall|j: int| 0 <= j < ab.0 ==> is_whitespace(#[trigger] s[j]),
        forall|j: int| ab.1 <= j < s.len() ==> is_whitespace(#[trigger] s[j]),
        trim(s).len() > 0 ==> !is_whitespace(trim(s)[0]) && !is_whitespace(trim(s).last()),
{
    let a = lemma_trim_start_shape(s);
    let t = trim_start(s);
    let b = lemma_trim_end_shape(t);
    assert(trim(s) =~= s.subrange(a, a + b));
    assert forall|j: int| a + b <= j < s.len() implies is_whitespace(#[trigger] s[j]) by {
        assert(s[j] == t[j - a]);
    }
    if trim(s).len() > 0 {
        assert(trim(s)[0] == t[0]);
        assert(t[0] == s[a]);
        assert(trim(s).last() == t[b - 1]);
    }
    (a, a + b)
}

/// Text that neither begins nor ends with whitespace is its own trim.
pub proof fn lemma_trim_of_trimmed(t: Seq<char>)
    requires
        t.len() > 0 ==> !is_whitespace(t[0]) && !is_whitespace(t.last()),
    ensures
        trim(t) == t,
{
    assert(trim_start(t) == t);
    assert(trim_end(t) == t);
}

/// Trimming twice is trimming once.
pub proof fn lemma_trim_idempotent(s: Seq<char>)
    ensures
        trim(trim(s)) == trim(s),
{
    lemma_trim_shape(s);
    lemma_trim_of_trimmed(trim(s));
}

/// Decimal digits are non-empty and consist of `0`..=`9`.
pub proof fn lemma_decimal_digits_shape(n: nat)
    ensures
        decimal_digits(n).len() > 0,
        forall|k: int|
            0 <= k < decimal_digits(n).len() ==> is_ascii_digit(#[trigger] decimal_digits(n)[k]),
    decreases n,
{
    if n >= 10 {
        lemma_decimal_digits_shape(n / 10);
        let p = decimal_digits((n / 10) as nat);
        assert forall|k: int| 0 <= k < decimal_digits(n).len() implies is_ascii_digit(
            #[trigger] decimal_digits(n)[k],
        ) by {
            if k < p.len() {
                assert(decimal_digits(n)[k] == p[k]);
            }
        }
    }
}

/// The decimal text of an integer is non-empty and neither begins nor ends
/// with whitespace.
pub proof fn lemma_decimal_text_trimmed(i: int)
    ensures
        decimal_text(i).len() > 0,
        trim(decimal_text(i)) == decimal_text(i),
{
    let n: nat = if i < 0 { (-i) as nat } else { i as nat };
    lemma_decimal_digits_shape(n);
    let d = decimal_digits(n);
    let t = decimal_text(i);
    assert(is_ascii_digit(d[0]));
    assert(is_ascii_digit(d.last()));
    if i < 0 {
        assert(t.last() == d.last());
        assert(t[0] == '-');
    } else {
        assert(t == d);
    }
    lemma_trim_of_trimmed(t);
}

} // verus!
