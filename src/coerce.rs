//! Tolerant reading of fields: lookup by key, booleans written as numbers or
//! strings, integers written as strings, and the fields left over.
use vstd::prelude::*;
use crate::json::{field_views_of, Json, JsonValue};
use crate::normalize::{key_pos, Fields};
use crate::text::{digits_value, same_text};

verus! {

/// The value of the first field of `m` keyed `k`.
pub open spec fn lookup(m: Fields, k: Seq<char>) -> Option<Json> {
    let p = key_pos(m, k);
    if p >= 0 {
        Some(m[p].1)
    } else {
        None
    }
}

/// The fields of an object value.
pub open spec fn fields_of(j: Json) -> Option<Fields> {
    match j {
        Json::Object(f) => Some(f),
        _ => None,
    }
}

/// The text of a string value.
pub open spec fn str_of(j: Json) -> Option<Seq<char>> {
    match j {
        Json::Str(s) => Some(s),
        _ => None,
    }
}

/// An integer value that fits in `i64`.
pub open spec fn i64_of(j: Json) -> Option<i64> {
    match j {
        Json::Int(n) => if i64::MIN <= n <= i64::MAX {
            Some(n as i64)
        } else {
            None
        },
        _ => None,
    }
}

/// An integer value that fits in `i64`, cut down to its low 32 bits.
pub open spec fn i32_of(j: Json) -> Option<i32> {
    match i64_of(j) {
        Some(n) => Some(n as i32),
        None => None,
    }
}

/// A boolean written as a boolean, as an integer (non-zero is true) or as
/// the string `"0"` or `"1"`.
pub open spec fn bool_like(j: Json) -> Option<bool> {
    match j {
        Json::Bool(b) => Some(b),
        Json::Int(n) => if i64::MIN <= n <= i64::MAX {
            Some(n != 0)
        } else {
            None
        },
        Json::Str(s) => if s == "0"@ {
            Some(false)
        } else if s == "1"@ {
            Some(true)
        } else {
            None
        },
        _ => None,
    }
}

/// `d` is made of decimal digits alone.
pub open spec fn all_digits(d: Seq<char>) -> bool {
    forall|i: int| 0 <= i < d.len() ==> '0' <= #[trigger] d[i] <= '9'
}

/// `s` without a leading sign.
pub open spec fn unsigned_part(s: Seq<char>) -> Seq<char> {
    if s.len() > 0 && (s[0] == '-' || s[0] == '+') {
        s.drop_first()
    } else {
        s
    }
}

/// The `i32` that the text `s` spells in decimal, with an optional sign.
pub open spec fn i32_of_text(s: Seq<char>) -> Option<i32> {
    let digits = unsigned_part(s);
    let v = if s.len() > 0 && s[0] == '-' {
        -digits_value(digits)
    } else {
        digits_value(digits)
    };
    if digits.len() > 0 && all_digits(digits) && i32::MIN <= v <= i32::MAX {
        Some(v as i32)
    } else {
        None
    }
}

/// An integer given as a number (cut to 32 bits) or as decimal text.
pub open spec fn loose_i32(j: Json) -> Option<i32> {
    match j {
        Json::Str(s) => i32_of_text(s),
        _ => i32_of(j),
    }
}

/// The value under the first of `a` and `b` that is present.
pub open spec fn lookup_either(m: Fields, a: Seq<char>, b: Seq<char>) -> Option<Json> {
    if lookup(m, a) is Some {
        lookup(m, a)
    } else {
        lookup(m, b)
    }
}

/// The field `k` of `m`.
pub fn get<'a>(m: &'a Vec<(String, JsonValue)>, k: &str) -> (r: Option<&'a JsonValue>)
    ensures
        r is Some <==> lookup(field_views_of(m@), k@) is Some,
        r is Some ==> lookup(field_views_of(m@), k@) == Some(r->0@),
{
    let ghost fv = field_views_of(m@);
    let mut j: usize = 0;
    while j < m.len()
        invariant
            j <= m.len(),
            fv == field_views_of(m@),
            forall|t: int| 0 <= t < j ==> (#[trigger] m[t]).0@ != k@,
        decreases m.len() - j,
    {
        if same_text(m[j].0.as_str(), k) {
            proof {
                crate::normalize::lemma_key_pos(fv, k@);
                let p = key_pos(fv, k@);
                if p >= 0 && p < j {
                    assert(m[p].0@ != k@);
                }
                assert(fv[j as int].0 == k@);
            }
            return Some(&m[j].1);
        }
        j = j + 1;
    }
    proof {
        crate::normalize::lemma_key_pos(fv, k@);
        let p = key_pos(fv, k@);
        if p >= 0 {
            assert(m[p].0@ != k@);
        }
    }
    None
}

impl JsonValue {
    /// The fields of an object.
    pub fn as_object(&self) -> (r: Option<&Vec<(String, JsonValue)>>)
        ensures
            r is Some <==> fields_of(self@) is Some,
            r is Some ==> fields_of(self@) == Some(field_views_of(r->0@)),
    {
        match self {
            JsonValue::Object(f) => {
                proof {
                    crate::json::lemma_object_view(*f);
                }
                Some(f)
            },
            _ => None,
        }
    }

    /// The text of a string.
    pub fn as_str(&self) -> (r: Option<&str>)
        ensures
            r is Some <==> str_of(self@) is Some,
            r is Some ==> str_of(self@) == Some(r->0@),
    {
        match self {
            JsonValue::Str(s) => Some(s.as_str()),
            _ => None,
        }
    }

    /// An integer that fits in `i64`.
    pub fn as_i64(&self) -> (r: Option<i64>)
        ensures
            r == i64_of(self@),
    {
        match self {
            JsonValue::Int(n) => Some(*n),
            JsonValue::UInt(n) => if *n <= 0x7FFF_FFFF_FFFF_FFFFu64 {
                Some(*n as i64)
            } else {
                None
            },
            _ => None,
        }
    }
}

/// An integer that fits in `i64`, cut down to its low 32 bits.
pub fn to_i32(v: &JsonValue) -> (r: Option<i32>)
    ensures
        r == i32_of(v@),
{
    match v.as_i64() {
        Some(n) => Some(n as i32),
        None => None,
    }
}

/// A boolean written as a boolean, an integer or `"0"` / `"1"`.
pub fn parse_bool_like(v: &JsonValue) -> (r: Option<bool>)
    ensures
        r == bool_like(v@),
{
    match v {
        JsonValue::Bool(b) => Some(*b),
        JsonValue::Str(s) => {
            if same_text(s.as_str(), "0") {
                Some(false)
            } else if same_text(s.as_str(), "1") {
                Some(true)
            } else {
                None
            }
        },
        _ => match v.as_i64() {
            Some(n) => Some(n != 0),
            None => None,
        },
    }
}

/// The `i32` that `s` spells in decimal, with an optional sign.
pub fn parse_i32_text(s: &str) -> (r: Option<i32>)
    ensures
        r == i32_of_text(s@),
{
    let n = s.unicode_len();
    if n == 0 {
        return None;
    }
    let first = s.get_char(0);
    let neg = first == '-';
    let start: usize = if first == '-' || first == '+' {
        1
    } else {
        0
    };
    let ghost digits = unsigned_part(s@);
    assert(digits =~= s@.subrange(start as int, n as int));
    if start == n {
        return None;
    }
    let mut acc: u64 = 0;
    let mut i: usize = start;
    while i < n
        invariant
            n == s@.len(),
            start <= i <= n,
            digits == s@.subrange(start as int, n as int),
            digits == unsigned_part(s@),
            neg == (s@[0] == '-'),
            n > 0,
            forall|j: int| start <= j < i ==> '0' <= #[trigger] s@[j] <= '9',
            acc as int == digits_value(s@.subrange(start as int, i as int)),
            acc <= 0x8000_0000u64,
        decreases n - i,
    {
        let c = s.get_char(i);
        assert(s@.subrange(start as int, i + 1).drop_last() =~= s@.subrange(
            start as int,
            i as int,
        ));
        assert(s@.subrange(start as int, i + 1).last() == c);
        if c < '0' || c > '9' {
            assert(digits[i - start] == c);
            assert(!('0' <= digits[i - start] <= '9'));
            assert(!all_digits(digits));
            return None;
        }
        let d = (c as u32 - '0' as u32) as u64;
        acc = acc * 10 + d;
        if acc > 0x8000_0000u64 {
            proof {
                if all_digits(digits) {
                    lemma_digits_grow(digits, i + 1 - start);
                    assert(digits.subrange(0, i + 1 - start) =~= s@.subrange(
                        start as int,
                        i + 1,
                    ));
                }
            }
            return None;
        }
        i = i + 1;
    }
    assert(s@.subrange(start as int, n as int) == digits);
    assert forall|j: int| 0 <= j < digits.len() implies '0' <= #[trigger] digits[j] <= '9' by {
        assert(digits[j] == s@[start + j]);
    }
    if neg {
        Some((0 - (acc as i64)) as i32)
    } else if acc <= 0x7FFF_FFFFu64 {
        Some(acc as i32)
    } else {
        None
    }
}

proof fn lemma_digits_grow(k: Seq<char>, j: int)
    requires
        0 <= j <= k.len(),
        forall|i: int| 0 <= i < k.len() ==> '0' <= #[trigger] k[i] <= '9',
    ensures
        digits_value(k.subrange(0, j)) <= digits_value(k),
    decreases k.len(),
{
    if k.len() > 0 {
        if j == k.len() {
            assert(k.subrange(0, j) =~= k);
        } else {
            lemma_digits_grow(k.drop_last(), j);
            assert(k.drop_last().subrange(0, j) =~= k.subrange(0, j));
            lemma_digits_nonneg(k.drop_last());
        }
    } else {
        assert(k.subrange(0, j) =~= k);
    }
}

proof fn lemma_digits_nonneg(k: Seq<char>)
    requires
        forall|i: int| 0 <= i < k.len() ==> '0' <= #[trigger] k[i] <= '9',
    ensures
        digits_value(k) >= 0,
    decreases k.len(),
{
    if k.len() > 0 {
        lemma_digits_nonneg(k.drop_last());
        assert(k[k.len() - 1] == k.last());
    }
}

/// An integer given as a number (cut to 32 bits) or as decimal text.
pub fn get_loose_i32(v: &JsonValue) -> (r: Option<i32>)
    ensures
        r == loose_i32(v@),
{
    match v {
        JsonValue::Str(s) => parse_i32_text(s.as_str()),
        _ => to_i32(v),
    }
}

} // verus!
