//! Entity and id encoding: plain entities, and relationship pairs packed into one 64-bit id.
use vstd::prelude::*;

verus! {

/// An entity identifier.
pub type Entity = u64;

/// A component or pair identifier matched by a query term.
pub type IdT = u64;

/// Flag bit that marks an id as a relationship pair.
pub const ECS_PAIR: u64 = 0x8000_0000_0000_0000;

/// Bound (exclusive) on the entity stored as the relationship of a pair.
pub const PAIR_FIRST_BOUND: u64 = 0x100_0000;

/// Bound (exclusive) on the entity stored as the target of a pair.
pub const PAIR_SECOND_BOUND: u64 = 0x1_0000_0000;

/// The id of the pair `(first, second)`: flag bit, relationship in bits 32..56, target in bits 0..32.
pub open spec fn pair_spec(first: u64, second: u64) -> int {
    ECS_PAIR as int + first as int * PAIR_SECOND_BOUND as int + second as int
}

/// Whether `id` carries the pair flag (and no other flag bits).
pub open spec fn is_pair_spec(id: u64) -> bool {
    ECS_PAIR as int <= id as int && (id as int) < ECS_PAIR as int + PAIR_FIRST_BOUND as int
        * PAIR_SECOND_BOUND as int
}

/// Relationship of a pair id.
pub open spec fn pair_first_spec(id: u64) -> u64 {
    ((id as int - ECS_PAIR as int) / PAIR_SECOND_BOUND as int) as u64
}

/// Target of a pair id.
pub open spec fn pair_second_spec(id: u64) -> u64 {
    (id as int % PAIR_SECOND_BOUND as int) as u64
}

/// Builds the pair id `(first, second)`.
pub fn pair(first: u64, second: u64) -> (r: u64)
    requires
        first < PAIR_FIRST_BOUND,
        second < PAIR_SECOND_BOUND,
    ensures
        r as int == pair_spec(first, second),
        is_pair_spec(r),
        pair_first_spec(r) == first,
        pair_second_spec(r) == second,
{
    proof {
        lemma_pair_parts(first, second);
    }
    ECS_PAIR + first * PAIR_SECOND_BOUND + second
}

/// Whether `id` is a relationship pair.
pub fn is_pair(id: u64) -> (r: bool)
    ensures
        r == is_pair_spec(id),
{
    ECS_PAIR <= id && id - ECS_PAIR < PAIR_FIRST_BOUND * PAIR_SECOND_BOUND
}

/// Relationship of a pair id.
pub fn pair_first(id: u64) -> (r: u64)
    requires
        is_pair_spec(id),
    ensures
        r == pair_first_spec(id),
        r < PAIR_FIRST_BOUND,
{
    (id - ECS_PAIR) / PAIR_SECOND_BOUND
}

/// Target of a pair id.
pub fn pair_second(id: u64) -> (r: u64)
    ensures
        r == pair_second_spec(id),
        r < PAIR_SECOND_BOUND,
{
    id % PAIR_SECOND_BOUND
}

/// Decoding a built pair gives back its two parts.
pub proof fn lemma_pair_parts(first: u64, second: u64)
    requires
        first < PAIR_FIRST_BOUND,
        second < PAIR_SECOND_BOUND,
    ensures
        0 <= pair_spec(first, second) <= u64::MAX,
        is_pair_spec(pair_spec(first, second) as u64),
        pair_first_spec(pair_spec(first, second) as u64) == first,
        pair_second_spec(pair_spec(first, second) as u64) == second,
{
    let b = PAIR_SECOND_BOUND as int;
    let p = pair_spec(first, second);
    assert((first as int) * b + (second as int) < (PAIR_FIRST_BOUND as int) * b) by (nonlinear_arith)
        requires
            first < PAIR_FIRST_BOUND,
            second < b,
            b == PAIR_SECOND_BOUND,
    ;
    assert((first as int * b + second as int) / b == first as int) by (nonlinear_arith)
        requires
            0 <= second < b,
            b > 0,
    ;
    assert((ECS_PAIR as int + first as int * b + second as int) % b == second as int)
        by (nonlinear_arith)
        requires
            0 <= second < b,
            b == 0x1_0000_0000,
            ECS_PAIR as int == 0x8000_0000 * b,
    ;
    assert(p - ECS_PAIR as int == first as int * b + second as int);
}

} // verus!
