//! Quest identifiers: one 64-bit value made of two signed 32-bit halves.
use vstd::prelude::*;

verus! {

/// The 64-bit value that the halves `high` and `low` stand for: `high`
/// sign-extended and shifted into the upper word, `low` zero-extended into the
/// lower word.
pub open spec fn id_of_parts(high: i32, low: i32) -> u64 {
    ((high as i64 as u64) << 32u64) | (low as u32 as u64)
}

/// The upper word of `value`, read as a signed 32-bit integer.
pub open spec fn high_of(value: u64) -> i32 {
    (value >> 32u64) as u32 as i32
}

/// The lower word of `value`, read as a signed 32-bit integer.
pub open spec fn low_of(value: u64) -> i32 {
    (value & 0xFFFF_FFFFu64) as u32 as i32
}

/// Identifier of a quest or questline, ordered by its unsigned 64-bit value.
#[derive(Debug, Clone, Copy, PartialEq, Eq, Hash, PartialOrd, Ord, Structural)]
pub struct QuestId(pub u64);

impl View for QuestId {
    type V = u64;

    open spec fn view(&self) -> u64 {
        self.0
    }
}

impl QuestId {
    /// The identifier whose combined value is `id`.
    pub fn from_u64(id: u64) -> (r: Self)
        ensures
            r@ == id,
    {
        QuestId(id)
    }

    /// The identifier made of the signed halves `high` and `low`.
    pub fn from_parts(high: i32, low: i32) -> (r: Self)
        ensures
            r@ == id_of_parts(high, low),
            r@ == ((high as i64 as u64) << 32u64) | (low as u32 as u64),
            high_of(r@) == high,
            low_of(r@) == low,
    {
        let hi = high as i64 as u64;
        let lo = low as u32 as u64;
        let v = (hi << 32u64) | lo;
        proof {
            lemma_parts_round_trip(high, low);
        }
        QuestId(v)
    }

    /// The combined value.
    pub fn as_u64(self) -> (r: u64)
        ensures
            r == self@,
    {
        self.0
    }

    /// The upper half as a signed integer.
    pub fn high_part(self) -> (r: i32)
        ensures
            r == high_of(self@),
    {
        (self.0 >> 32u64) as u32 as i32
    }

    /// The lower half as a signed integer.
    pub fn low_part(self) -> (r: i32)
        ensures
            r == low_of(self@),
    {
        (self.0 & 0xFFFF_FFFFu64) as u32 as i32
    }

    /// The upper half as an unsigned integer.
    pub fn high_u32(self) -> (r: u32)
        ensures
            r == (self@ >> 32u64) as u32,
            r as i32 == high_of(self@),
    {
        (self.0 >> 32u64) as u32
    }

    /// The lower half as an unsigned integer.
    pub fn low_u32(self) -> (r: u32)
        ensures
            r == self@ as u32,
            r as i32 == low_of(self@),
    {
        proof {
            let v = self.0;
            assert((v & 0xFFFF_FFFFu64) as u32 == v as u32) by (bit_vector);
        }
        self.0 as u32
    }
}

/// Splitting the value built from two halves gives back those halves.
pub proof fn lemma_parts_round_trip(high: i32, low: i32)
    ensures
        high_of(id_of_parts(high, low)) == high,
        low_of(id_of_parts(high, low)) == low,
{
    assert(((((high as i64 as u64) << 32u64) | (low as u32 as u64)) >> 32u64) as u32 as i32
        == high) by (bit_vector);
    assert(((((high as i64 as u64) << 32u64) | (low as u32 as u64)) & 0xFFFF_FFFFu64) as u32
        as i32 == low) by (bit_vector);
}

/// Building an identifier from the halves of a value gives back that value.
pub proof fn lemma_value_round_trip(value: u64)
    ensures
        id_of_parts(high_of(value), low_of(value)) == value,
{
    assert(((((value >> 32u64) as u32 as i32) as i64 as u64) << 32u64) | ((value & 0xFFFF_FFFFu64) as u32 as i32 as u32 as u64) == value) by (bit_vector);
}

} // verus!
