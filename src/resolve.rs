//! Typing of scalar text by the YAML core schema.

use vstd::prelude::*;
use vstd::string::StrSliceExecFns;

use crate::event::{ScalarStyle, Tag};
use crate::value::{Tree, Yaml};

verus! {

pub open spec fn is_digit(c: char) -> bool {
    '0' <= c && c <= '9'
}

pub open spec fn all_digits(s: Seq<char>) -> bool {
    forall|i: int| 0 <= i < s.len() ==> is_digit(#[trigger] s[i])
}

/// The number that a run of decimal digits denotes.
pub open spec fn digits_value(s: Seq<char>) -> int
    decreases s.len(),
{
    if s.len() == 0 {
        0
    } else {
        digits_value(s.drop_last()) * 10 + (s.last() as int - '0' as int)
    }
}

/// The text without one leading sign.
pub open spec fn unsigned_part(s: Seq<char>) -> Seq<char> {
    if s.len() > 0 && (s[0] == '+' || s[0] == '-') {
        s.drop_first()
    } else {
        s
    }
}

/// A boolean literal: exactly `true` or `false`.
pub open spec fn bool_of(s: Seq<char>) -> Option<bool> {
    if s == "true"@ {
        Some(true)
    } else if s == "false"@ {
        Some(false)
    } else {
        None
    }
}

/// A decimal 64-bit signed integer: an optional sign, then one or more digits.
pub open spec fn int_of(s: Seq<char>) -> Option<i64> {
    let d = unsigned_part(s);
    let v = if s.len() > 0 && s[0] == '-' {
        -digits_value(d)
    } else {
        digits_value(d)
    };
    if d.len() > 0 && all_digits(d) && i64::MIN <= v <= i64::MAX {
        Some(v as i64)
    } else {
        None
    }
}

/// The number of digits in a row from position `i` on.
pub open spec fn digit_run(s: Seq<char>, i: int) -> int
    decreases s.len() - i,
{
    if 0 <= i < s.len() && is_digit(s[i]) {
        1 + digit_run(s, i + 1)
    } else {
        0
    }
}

/// `c` is the lower-case letter `w`, or its upper-case form.
pub open spec fn same_letter(c: char, w: char) -> bool {
    c == w || ('A' <= c && c <= 'Z' && c as u32 + 32 == w as u32)
}

/// `s` equals the lower-case word `w` when ASCII letters are compared without case.
pub open spec fn same_ignoring_case(s: Seq<char>, w: Seq<char>) -> bool {
    s.len() == w.len() && forall|i: int| 0 <= i < s.len() ==> same_letter(#[trigger] s[i], w[i])
}

/// A decimal number: digits with at most one point, at least one digit, then an optional
/// exponent.
pub open spec fn is_decimal(r: Seq<char>) -> bool {
    let a = digit_run(r, 0);
    let dot = a < r.len() && r[a] == '.';
    let b = if dot {
        digit_run(r, a + 1)
    } else {
        0
    };
    let q = if dot {
        a + 1 + b
    } else {
        a
    };
    a + b > 0 && (q == r.len() || ((r[q] == 'e' || r[q] == 'E') && exponent_ok(r.skip(q + 1))))
}

pub open spec fn exponent_ok(x: Seq<char>) -> bool {
    let y = unsigned_part(x);
    y.len() > 0 && all_digits(y)
}

/// The text that the standard library reads as a 64-bit float: an optional sign, then `inf`,
/// `infinity`, `nan` (in any case) or a decimal number.
pub open spec fn std_float_text(s: Seq<char>) -> bool {
    let r = unsigned_part(s);
    same_ignoring_case(r, "inf"@) || same_ignoring_case(r, "infinity"@) || same_ignoring_case(
        r,
        "nan"@,
    ) || is_decimal(r)
}

/// The YAML spellings of infinity and not-a-number.
pub open spec fn special_float_text(s: Seq<char>) -> bool {
    s == ".inf"@ || s == ".Inf"@ || s == ".INF"@ || s == "+.inf"@ || s == "+.Inf"@ || s
        == "+.INF"@ || s == "-.inf"@ || s == "-.Inf"@ || s == "-.INF"@ || s == ".nan"@ || s
        == "NaN"@ || s == ".NAN"@
}

/// A float of the core schema.
pub open spec fn float_text(s: Seq<char>) -> bool {
    special_float_text(s) || std_float_text(s)
}

pub open spec fn null_text(s: Seq<char>) -> bool {
    s == "~"@ || s == "null"@
}

/// The node for plain text under an explicit core-schema tag with the given suffix.
pub open spec fn tagged_tree(text: Seq<char>, suffix: Seq<char>) -> Tree {
    if suffix == "bool"@ {
        match bool_of(text) {
            Some(b) => Tree::Boolean(b),
            None => Tree::BadValue,
        }
    } else if suffix == "int"@ {
        match int_of(text) {
            Some(i) => Tree::Integer(i),
            None => Tree::BadValue,
        }
    } else if suffix == "float"@ {
        if float_text(text) {
            Tree::Real(text)
        } else {
            Tree::BadValue
        }
    } else if suffix == "null"@ {
        if null_text(text) {
            Tree::Null
        } else {
            Tree::BadValue
        }
    } else {
        Tree::Str(text)
    }
}

/// The node for plain text without a tag: null, boolean, integer, float, else string.
pub open spec fn implicit_tree(text: Seq<char>) -> Tree {
    if null_text(text) {
        Tree::Null
    } else if bool_of(text) is Some {
        Tree::Boolean(bool_of(text)->0)
    } else if int_of(text) is Some {
        Tree::Integer(int_of(text)->0)
    } else if float_text(text) {
        Tree::Real(text)
    } else {
        Tree::Str(text)
    }
}

/// The node for a scalar with the given text, style and tag.
pub open spec fn scalar_tree(text: Seq<char>, style: ScalarStyle, tag: Option<Tag>) -> Tree {
    if style != ScalarStyle::Plain {
        Tree::Str(text)
    } else {
        match tag {
            Some(t) => if t.handle@ == "tag:yaml.org,2002:"@ {
                tagged_tree(text, t.suffix@)
            } else {
                Tree::Str(text)
            },
            None => implicit_tree(text),
        }
    }
}

/// Whether two texts are equal.
pub fn same_text(a: &str, b: &str) -> (r: bool)
    ensures
        r == (a@ == b@),
{
    let n = a.unicode_len();
    if n != b.unicode_len() {
        return false;
    }
    let mut i: usize = 0;
    while i < n
        invariant
            n == a@.len(),
            n == b@.len(),
            i <= n,
            forall|j: int| 0 <= j < i ==> a@[j] == b@[j],
        decreases n - i,
    {
        if a.get_char(i) != b.get_char(i) {
            return false;
        }
        i += 1;
    }
    assert(a@ =~= b@);
    true
}

/// The text without one leading sign.
fn strip_sign(s: &str) -> (r: &str)
    ensures
        r@ == unsigned_part(s@),
{
    let n = s.unicode_len();
    if n > 0 {
        let c = s.get_char(0);
        if c == '+' || c == '-' {
            let r = s.substring_char(1, n);
            assert(r@ =~= s@.drop_first());
            return r;
        }
    }
    s
}

fn is_digit_char(c: char) -> (r: bool)
    ensures
        r == is_digit(c),
{
    '0' <= c && c <= '9'
}

fn only_digits(s: &str) -> (r: bool)
    ensures
        r == all_digits(s@),
{
    let n = s.unicode_len();
    let mut i: usize = 0;
    while i < n
        invariant
            n == s@.len(),
            i <= n,
            forall|j: int| 0 <= j < i ==> is_digit(#[trigger] s@[j]),
        decreases n - i,
    {
        if !is_digit_char(s.get_char(i)) {
            return false;
        }
        i += 1;
    }
    true
}

/// The number of digits in a row from position `i` on.
fn count_digits(s: &str, n: usize, i: usize) -> (r: usize)
    requires
        n == s@.len(),
        i <= n,
    ensures
        r == digit_run(s@, i as int),
        i + r <= n,
{
    let mut j: usize = i;
    while j < n && is_digit_char(s.get_char(j))
        invariant
            n == s@.len(),
            i <= j <= n,
            digit_run(s@, i as int) == (j - i) + digit_run(s@, j as int),
        decreases n - j,
    {
        j += 1;
    }
    j - i
}

/// Reads a boolean literal: exactly `true` or `false`.
pub fn parse_bool(s: &str) -> (r: Option<bool>)
    ensures
        r == bool_of(s@),
{
    if same_text(s, "true") {
        Some(true)
    } else if same_text(s, "false") {
        Some(false)
    } else {
        None
    }
}

/// Reads a decimal 64-bit signed integer: an optional sign, then one or more digits.
pub fn parse_i64(s: &str) -> (r: Option<i64>)
    ensures
        r == int_of(s@),
{
    let neg = s.unicode_len() > 0 && s.get_char(0) == '-';
    let d = strip_sign(s);
    let n = d.unicode_len();
    if n == 0 {
        return None;
    }
    let mut acc: u128 = 0;
    let mut big = false;
    let mut i: usize = 0;
    while i < n
        invariant
            n == d@.len(),
            d@ == unsigned_part(s@),
            neg == (s@.len() > 0 && s@[0] == '-'),
            i <= n,
            all_digits(d@.take(i as int)),
            big ==> digits_value(d@.take(i as int)) > 9223372036854775808,
            !big ==> acc == digits_value(d@.take(i as int)) && acc <= 9223372036854775808,
        decreases n - i,
    {
        let c = d.get_char(i);
        if !is_digit_char(c) {
            assert(!all_digits(d@));
            return None;
        }
        proof {
            let t = d@.take(i + 1);
            assert(t.drop_last() =~= d@.take(i as int));
            assert(t.last() == c);
            assert(digits_value(t) == digits_value(d@.take(i as int)) * 10 + (c as int - '0' as int));
        }
        if !big {
            let v = acc * 10 + ((c as u32) - 48) as u128;
            if v > 9223372036854775808 {
                big = true;
            } else {
                acc = v;
            }
        }
        i += 1;
    }
    assert(d@.take(n as int) =~= d@);
    if big {
        return None;
    }
    if neg {
        Some((0 - (acc as i128)) as i64)
    } else if acc <= 9223372036854775807 {
        Some(acc as i64)
    } else {
        None
    }
}

/// Whether `s` is the lower-case word `w` with ASCII letters compared without case.
fn matches_ignoring_case(s: &str, w: &str) -> (r: bool)
    ensures
        r == same_ignoring_case(s@, w@),
{
    let n = s.unicode_len();
    if n != w.unicode_len() {
        return false;
    }
    let mut i: usize = 0;
    while i < n
        invariant
            n == s@.len(),
            n == w@.len(),
            i <= n,
            forall|j: int| 0 <= j < i ==> same_letter(#[trigger] s@[j], w@[j]),
        decreases n - i,
    {
        let c = s.get_char(i);
        let l = w.get_char(i);
        if !(c == l || ('A' <= c && c <= 'Z' && (c as u32) + 32 == l as u32)) {
            return false;
        }
        i += 1;
    }
    true
}

fn is_decimal_text(r: &str) -> (b: bool)
    ensures
        b == is_decimal(r@),
{
    let n = r.unicode_len();
    let a = count_digits(r, n, 0);
    let dot = a < n && r.get_char(a) == '.';
    let b = if dot {
        count_digits(r, n, a + 1)
    } else {
        0
    };
    let q = if dot {
        a + 1 + b
    } else {
        a
    };
    if a + b == 0 {
        return false;
    }
    if q == n {
        return true;
    }
    let e = r.get_char(q);
    if e != 'e' && e != 'E' {
        return false;
    }
    let x = r.substring_char(q + 1, n);
    assert(x@ =~= r@.skip(q + 1));
    let y = strip_sign(x);
    y.unicode_len() > 0 && only_digits(y)
}

/// Whether the standard library reads `s` as a 64-bit float.
fn is_std_float(s: &str) -> (b: bool)
    ensures
        b == std_float_text(s@),
{
    let r = strip_sign(s);
    matches_ignoring_case(r, "inf") || matches_ignoring_case(r, "infinity")
        || matches_ignoring_case(r, "nan") || is_decimal_text(r)
}

/// Whether `s` is a float of the core schema: a YAML spelling of infinity or not-a-number, or
/// decimal text.
pub fn is_float(s: &str) -> (b: bool)
    ensures
        b == float_text(s@),
{
    let special = same_text(s, ".inf") || same_text(s, ".Inf") || same_text(s, ".INF")
        || same_text(s, "+.inf") || same_text(s, "+.Inf") || same_text(s, "+.INF")
        || same_text(s, "-.inf") || same_text(s, "-.Inf") || same_text(s, "-.INF")
        || same_text(s, ".nan") || same_text(s, "NaN") || same_text(s, ".NAN");
    special || is_std_float(s)
}

fn is_null_text(s: &str) -> (b: bool)
    ensures
        b == null_text(s@),
{
    same_text(s, "~") || same_text(s, "null")
}

impl Yaml {
    /// Types plain untagged text: null, boolean, integer, float, else string.
    pub fn from_str(v: &str) -> (r: Yaml)
        ensures
            r@ == implicit_tree(v@),
    {
        if is_null_text(v) {
            return Yaml::Null;
        }
        match parse_bool(v) {
            Some(b) => Yaml::Boolean(b),
            None => match parse_i64(v) {
                Some(i) => Yaml::Integer(i),
                None => if is_float(v) {
                    Yaml::Real(v.to_owned())
                } else {
                    Yaml::String(v.to_owned())
                },
            },
        }
    }
}

/// Types a scalar: non-plain text is a string; plain text under a core-schema tag must match
/// the tag (else `BadValue`); plain text under another tag is a string; plain untagged text
/// goes by `Yaml::from_str`.
pub fn resolve_scalar(text: String, style: &ScalarStyle, tag: &Option<Tag>) -> (r: Yaml)
    ensures
        r@ == scalar_tree(text@, *style, *tag),
{
    if !matches!(style, ScalarStyle::Plain) {
        return Yaml::String(text);
    }
    match tag {
        Some(t) => {
            if !same_text(t.handle.as_str(), "tag:yaml.org,2002:") {
                return Yaml::String(text);
            }
            let suffix = t.suffix.as_str();
            if same_text(suffix, "bool") {
                match parse_bool(text.as_str()) {
                    Some(b) => Yaml::Boolean(b),
                    None => Yaml::BadValue,
                }
            } else if same_text(suffix, "int") {
                match parse_i64(text.as_str()) {
                    Some(i) => Yaml::Integer(i),
                    None => Yaml::BadValue,
                }
            } else if same_text(suffix, "float") {
                if is_float(text.as_str()) {
                    Yaml::Real(text)
                } else {
                    Yaml::BadValue
                }
            } else if same_text(suffix, "null") {
                if is_null_text(text.as_str()) {
                    Yaml::Null
                } else {
                    Yaml::BadValue
                }
            } else {
                Yaml::String(text)
            }
        },
        None => Yaml::from_str(text.as_str()),
    }
}

} // verus!
