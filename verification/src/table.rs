//! The collision table of the search: baby-step residues, keyed by their
//! arbitrary-precision value, to the step index that produced them. A hash
//! map does the work; its contents are modeled as a map from the keys'
//! mathematical values to the stored indices. When two insertions carry the
//! same key value, the later one wins.

use crate::bigint::big_value;
use num_bigint::BigInt;
use std::collections::HashMap;
use vstd::prelude::*;

verus! {

/// A table from `BigInt` keys to step indices.
#[verifier::external_body]
pub struct CollisionTable {
    map: HashMap<BigInt, u64>,
}

/// What the table holds: the value of each key, to the stored index.
pub uninterp spec fn table_entries(t: CollisionTable) -> Map<int, int>;

/// Relies on `HashMap::with_capacity`: a newly made map holds nothing.
#[verifier::external_body]
pub(crate) fn table_new(capacity: u64) -> (t: CollisionTable)
    ensures
        forall|k: int| !(#[trigger] table_entries(t).dom().contains(k)),
{
    CollisionTable { map: HashMap::with_capacity(capacity as usize) }
}

/// Relies on `HashMap::insert`, and on `BigInt`'s `Eq` and `Hash` both going
/// by the represented value: the entry for this key value is now `x`, and
/// every other entry is unchanged.
#[verifier::external_body]
pub(crate) fn table_insert(t: &mut CollisionTable, key: &BigInt, x: u64)
    ensures
        table_entries(*final(t)) == table_entries(*old(t)).insert(big_value(*key), x as int),
{
    t.map.insert(key.clone(), x);
}

/// Relies on `HashMap::get`, under the same reading of `Eq` and `Hash`: the
/// stored index for this key value, if the table holds the key.
#[verifier::external_body]
pub(crate) fn table_get(t: &CollisionTable, key: &BigInt) -> (r: Option<u64>)
    ensures
        match r {
            Some(x) => table_entries(*t).dom().contains(big_value(*key))
                && table_entries(*t)[big_value(*key)] == x as int,
            None => !table_entries(*t).dom().contains(big_value(*key)),
        },
{
    t.map.get(key).copied()
}

} // verus!
