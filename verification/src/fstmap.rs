//! The finite-state-transducer map, behind trusted declarations.
//!
//! The on-disk index keeps its stem table in an `fst::Map`: an ordered
//! map from byte-string keys to `u64` values, built once from strictly
//! increasing keys and then only read. This module declares that type
//! and the few calls the index makes, stating over ghost names what
//! the fst crate's source shows: what a builder holds, what the built
//! map contains, and what lookups return.

use vstd::prelude::*;

verus! {

use crate::lexord::lex_lt;
use vstd::string::StringSliceAdditionalSpecFns;

#[verifier::external_type_specification]
#[verifier::external_body]
#[verifier::reject_recursive_types(D)]
pub struct ExFstMap<D>(fst::Map<D>);

#[verifier::external_type_specification]
#[verifier::external_body]
#[verifier::reject_recursive_types(W)]
pub struct ExFstMapBuilder<W>(fst::MapBuilder<W>);

/// The key-value pairs inserted into a builder so far, in insertion
/// order.
pub uninterp spec fn fst_builder_keys(b: fst::MapBuilder<Vec<u8>>) -> Seq<(Seq<u8>, u64)>;

/// The entries of a built map.
pub uninterp spec fn fst_map_entries(m: fst::Map<Vec<u8>>) -> Map<Seq<u8>, u64>;

/// Whether a map value is known to have come out of a builder; the
/// fst crate documents that reading a map whose bytes no builder
/// wrote may panic, so lookups are restricted to built maps.
pub uninterp spec fn fst_map_trusted(m: fst::Map<Vec<u8>>) -> bool;

/// The map holding a sequence of key-value pairs, later pairs
/// overriding earlier ones.
pub open spec fn pairs_map(ps: Seq<(Seq<u8>, u64)>) -> Map<Seq<u8>, u64>
    decreases ps.len(),
{
    if ps.len() == 0 {
        Map::empty()
    } else {
        pairs_map(ps.drop_last()).insert(ps.last().0, ps.last().1)
    }
}

/// Relies on `fst::MapBuilder::memory`: a fresh in-memory builder with
/// nothing inserted.
#[verifier::external_body]
pub fn fst_builder_new() -> (b: fst::MapBuilder<Vec<u8>>)
    ensures
        fst_builder_keys(b) == Seq::<(Seq<u8>, u64)>::empty(),
{
    fst::MapBuilder::memory()
}

/// Relies on `fst::MapBuilder::insert`: appends the pair. Its source
/// returns an error only for a key less than or equal to a previous
/// key or for a writer error, and writing to a `Vec` cannot fail, so
/// under the ordering precondition the call succeeds.
#[verifier::external_body]
pub fn fst_builder_insert(b: &mut fst::MapBuilder<Vec<u8>>, key: &str, val: u64)
    requires
        forall|j: int|
            0 <= j < fst_builder_keys(*old(b)).len() ==> lex_lt(
                #[trigger] fst_builder_keys(*old(b))[j].0,
                key.spec_bytes(),
            ),
    ensures
        fst_builder_keys(*final(b)) == fst_builder_keys(*old(b)).push((key.spec_bytes(), val)),
{
    b.insert(key, val).unwrap();
}

/// Relies on `fst::MapBuilder::into_map`: finishes the build and
/// returns the map holding exactly the inserted pairs.
#[verifier::external_body]
pub fn fst_builder_into_map(b: fst::MapBuilder<Vec<u8>>) -> (m: fst::Map<Vec<u8>>)
    ensures
        fst_map_trusted(m),
        fst_map_entries(m) == pairs_map(fst_builder_keys(b)),
{
    b.into_map()
}

/// Relies on `fst::Map::get`: the value stored under the key's bytes,
/// or `None`.
#[verifier::external_body]
pub fn fst_map_get(m: &fst::Map<Vec<u8>>, key: &str) -> (r: Option<u64>)
    requires
        fst_map_trusted(*m),
    ensures
        r == if fst_map_entries(*m).contains_key(key.spec_bytes()) {
            Some(fst_map_entries(*m)[key.spec_bytes()])
        } else {
            None::<u64>
        },
{
    m.get(key)
}

/// Relies on `fst::raw::Fst::to_vec` (through `Map::as_fst`): the
/// serialized bytes of the map, for the caller to persist. Nothing is
/// assumed of them here; reopening persisted bytes is the caller's
/// trust in the file system and in fst's serialization round-trip.
#[verifier::external_body]
pub fn fst_map_bytes(m: &fst::Map<Vec<u8>>) -> Vec<u8> {
    m.as_fst().to_vec()
}

} // verus!
