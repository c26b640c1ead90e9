//! Character-level helpers on keys: tag suffixes, decimal indices, comparison.
use vstd::prelude::*;
use vstd::string::*;

verus! {

/// `k` with its last `:` and everything after it removed; `k` itself when it
/// holds no `:`.
pub open spec fn strip_key(k: Seq<char>) -> Seq<char>
    decreases k.len(),
{
    if k.len() == 0 {
        k
    } else if k.last() == ':' {
        k.drop_last()
    } else if k.drop_last().contains(':') {
        strip_key(k.drop_last())
    } else {
        k
    }
}

pub open spec fn is_digit(c: char) -> bool {
    '0' <= c && c <= '9'
}

/// The value of `k` read as decimal digits.
pub open spec fn digits_value(k: Seq<char>) -> int
    decreases k.len(),
{
    if k.len() == 0 {
        0
    } else {
        digits_value(k.drop_last()) * 10 + (k.last() as int - '0' as int)
    }
}

/// `k` is a non-empty run of decimal digits whose value fits in 64 bits.
pub open spec fn is_digit_run(k: Seq<char>) -> bool {
    &&& k.len() > 0
    &&& forall|i: int| 0 <= i < k.len() ==> is_digit(#[trigger] k[i])
    &&& digits_value(k) <= u64::MAX
}

/// `k` without one leading `+`, if it has one.
pub open spec fn index_digits(k: Seq<char>) -> Seq<char> {
    if k.len() > 0 && k[0] == '+' {
        k.drop_first()
    } else {
        k
    }
}

/// `k` spells an unsigned 64-bit index: an optional `+`, then decimal
/// digits.
pub open spec fn is_index_key(k: Seq<char>) -> bool {
    is_digit_run(index_digits(k))
}

/// The index that `k` spells.
pub open spec fn index_value(k: Seq<char>) -> int {
    digits_value(index_digits(k))
}

proof fn lemma_strip_at(k: Seq<char>, p: int)
    requires
        0 <= p < k.len(),
        k[p] == ':',
        forall|j: int| p < j < k.len() ==> k[j] != ':',
    ensures
        strip_key(k) == k.subrange(0, p),
    decreases k.len(),
{
    if p == k.len() - 1 {
        assert(k.drop_last() =~= k.subrange(0, p));
    } else {
        assert(k.drop_last()[p] == ':');
        assert(k.drop_last().contains(':'));
        lemma_strip_at(k.drop_last(), p);
        assert(k.drop_last().subrange(0, p) =~= k.subrange(0, p));
    }
}

/// A key without `:` is left as it is.
pub proof fn lemma_strip_plain(k: Seq<char>)
    requires
        !k.contains(':'),
    ensures
        strip_key(k) == k,
{
    if k.len() > 0 {
        assert(k[k.len() - 1] == k.last());
        if k.drop_last().contains(':') {
            let j = choose|j: int| 0 <= j < k.drop_last().len() && k.drop_last()[j] == ':';
            assert(k[j] == ':');
        }
    }
}

proof fn lemma_digits_prefix(k: Seq<char>, j: int)
    requires
        0 <= j <= k.len(),
        forall|i: int| 0 <= i < k.len() ==> is_digit(#[trigger] k[i]),
    ensures
        digits_value(k.subrange(0, j)) <= digits_value(k),
        0 <= digits_value(k.subrange(0, j)),
    decreases k.len(),
{
    if k.len() > 0 {
        if j == k.len() {
            assert(k.subrange(0, j) =~= k);
            assert(k.drop_last() =~= k.subrange(0, j - 1));
            lemma_digits_prefix(k.drop_last(), j - 1);
            assert(is_digit(k[k.len() - 1]));
        } else {
            lemma_digits_prefix(k.drop_last(), j);
            assert(k.drop_last().subrange(0, j) =~= k.subrange(0, j));
            assert(k.drop_last().subrange(0, k.len() - 1) =~= k.drop_last());
            lemma_digits_prefix(k.drop_last(), k.len() - 1);
            assert(is_digit(k[k.len() - 1]));
        }
    } else {
        assert(k.subrange(0, j) =~= k);
    }
}

/// Whether two texts are the same sequence of characters.
pub fn same_text(a: &str, b: &str) -> (r: bool)
    ensures
        r == (a@ == b@),
{
    let n = a.unicode_len();
    if n != b.unicode_len() {
        return false;
    }
    let mut i: usize = 0;
    while i < n
        invariant
            n == a@.len(),
            n == b@.len(),
            0 <= i <= n,
            forall|j: int| 0 <= j < i ==> a@[j] == b@[j],
        decreases n - i,
    {
        if a.get_char(i) != b.get_char(i) {
            return false;
        }
        i = i + 1;
    }
    assert(a@ =~= b@);
    true
}

/// `k` without its tag suffix: the part before its last `:`.
pub fn strip_tag(k: &str) -> (r: String)
    ensures
        r@ == strip_key(k@),
{
    let n = k.unicode_len();
    let mut i: usize = n;
    while i > 0
        invariant
            n == k@.len(),
            i <= n,
            forall|j: int| i <= j < n ==> k@[j] != ':',
        decreases i,
    {
        if k.get_char(i - 1) == ':' {
            proof {
                lemma_strip_at(k@, i - 1);
            }
            return k.substring_char(0, i - 1).to_owned();
        }
        i = i - 1;
    }
    proof {
        lemma_strip_plain(k@);
    }
    k.to_owned()
}

/// The index that `k` spells: an optional `+`, then decimal digits whose
/// value fits in 64 bits.
pub fn index_of_key(k: &str) -> (r: Option<u64>)
    ensures
        r is Some <==> is_index_key(k@),
        r is Some ==> r->0 as int == index_value(k@),
{
    let n = k.unicode_len();
    if n > 0 && k.get_char(0) == '+' {
        let rest = k.substring_char(1, n);
        assert(rest@ =~= k@.drop_first());
        digit_run_value(rest)
    } else {
        digit_run_value(k)
    }
}

/// The value of `k` when it is a non-empty run of decimal digits whose value
/// fits in 64 bits.
fn digit_run_value(k: &str) -> (r: Option<u64>)
    ensures
        r is Some <==> is_digit_run(k@),
        r is Some ==> r->0 as int == digits_value(k@),
{
    let n = k.unicode_len();
    if n == 0 {
        return None;
    }
    let mut acc: u64 = 0;
    let mut i: usize = 0;
    while i < n
        invariant
            n == k@.len(),
            0 <= i <= n,
            forall|j: int| 0 <= j < i ==> is_digit(#[trigger] k@[j]),
            acc as int == digits_value(k@.subrange(0, i as int)),
        decreases n - i,
    {
        let c = k.get_char(i);
        assert(k@.subrange(0, i + 1).drop_last() =~= k@.subrange(0, i as int));
        if c < '0' || c > '9' {
            return None;
        }
        let d = (c as u32 - '0' as u32) as u64;
        let next = match acc.checked_mul(10) {
            Some(t) => t.checked_add(d),
            None => None,
        };
        match next {
            Some(v) => {
                acc = v;
            },
            None => {
                proof {
                    if forall|j: int| 0 <= j < n ==> is_digit(#[trigger] k@[j]) {
                        lemma_digits_prefix(k@, i + 1);
                    }
                }
                return None;
            },
        }
        i = i + 1;
    }
    assert(k@.subrange(0, n as int) =~= k@);
    Some(acc)
}

} // verus!
