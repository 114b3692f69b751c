//! The boundary to outside code: weighted_rand's alias-method sampler, the
//! injectable random source, and two character-handling functions of std.
//! Everything below an `external_body` attribute is believed, not proved.

use rand::rngs::StdRng;
use vstd::prelude::*;
use weighted_rand::builder::NewBuilder;
use weighted_rand::builder::WalkerTableBuilder;
use weighted_rand::table::WalkerTable;

verus! {

#[verifier::external_type_specification]
#[verifier::external_body]
pub struct ExWalkerTable(WalkerTable);

#[verifier::external_type_specification]
#[verifier::external_body]
pub struct ExStdRng(StdRng);

/// The number of weights a `WalkerTable` was built over by weighted_rand's
/// builder; meaningless for tables assembled any other way.
pub uninterp spec fn walker_size(t: WalkerTable) -> nat;

/// Relies on weighted_rand's `WalkerTableBuilder`: `new` scales every weight
/// by the slice length in u32 arithmetic and `build` sums the scaled weights
/// in u32 arithmetic, so the caller must keep the length times the sum of
/// the weights within u32 range; within it, `build` never panics and lays
/// out one slot per weight.
#[verifier::external_body]
pub(crate) fn build_walker(weights: &Vec<u32>) -> (t: WalkerTable)
    requires
        weights@.len() * crate::assoc::sum_u32(weights@) <= u32::MAX,
    ensures
        walker_size(t) == weights@.len(),
{
    WalkerTableBuilder::new(weights.as_slice()).build()
}

/// Relies on `WalkerTable::next_rng`: it draws a uniform index below the
/// table's length and returns either it or its alias, which the builder
/// also keeps below the length; on a non-empty table no draw panics.
/// Nothing relates two draws: each may differ.
#[verifier::external_body]
pub(crate) fn walker_next(t: &WalkerTable, rng: &mut StdRng) -> (i: usize)
    requires
        walker_size(*t) > 0,
    ensures
        i < walker_size(*t),
{
    t.next_rng(rng)
}

/// Relies on `char::from_u32`: it returns `Some` exactly for Unicode scalar
/// values, and the character it returns has the given value.
#[verifier::external_body]
pub(crate) fn char_from_u32(v: u32) -> (r: Option<char>)
    ensures
        r is Some <==> vstd::utf8::is_scalar(v),
        r matches Some(c) ==> c as u32 == v,
{
    char::from_u32(v)
}

/// Relies on `String::push`: it appends the character to the string.
#[verifier::external_body]
pub(crate) fn push_char(s: &mut String, c: char)
    ensures
        final(s)@ == old(s)@.push(c),
{
    s.push(c);
}

} // verus!
