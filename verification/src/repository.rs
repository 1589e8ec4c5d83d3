//! The repository port for instrument records and its in-memory adapter.
use vstd::prelude::*;
use std::collections::HashMap;
use vstd::std_specs::iter::IteratorSpec;
use crate::errors::DomainError;
use crate::instrument::{uuid_text, Instrument, InstrumentId};

verus! {

broadcast use vstd::std_specs::hash::group_hash_axioms;

/// Whether `v` lists every record of `m` once, in some order: as many
/// entries as `m` has, each stored under its own identifier, no
/// identifier twice.
pub open spec fn lists_exactly(v: Seq<Instrument>, m: Map<u128, Instrument>) -> bool {
    &&& v.len() == m.len()
    &&& forall|i: int|
        0 <= i < v.len() ==> m.contains_key(#[trigger] v[i].id.0) && m[v[i].id.0] == v[i]
    &&& forall|i: int, j: int| 0 <= i < j < v.len() ==> v[i].id != v[j].id
}

/// Repository "port" for [`Instrument`] persistence.
///
/// `stored` is what the repository holds, keyed by identifier value.
/// Each method's outcome is named by a relation that the adapter defines
/// (`list_outcome`, `get_outcome`, `save_outcome`), beside what every
/// adapter promises of it.
pub trait InstrumentRepository {
    spec fn stored(&self) -> Map<u128, Instrument>;

    /// What `list` may return.
    spec fn list_outcome(&self, r: Result<Vec<Instrument>, DomainError>) -> bool;

    /// What `get` may return for `id`.
    spec fn get_outcome(&self, id: InstrumentId, r: Result<Instrument, DomainError>) -> bool;

    /// What `save` of `instrument` may return, from this state.
    spec fn save_outcome(&self, instrument: Instrument, r: Result<Instrument, DomainError>) -> bool;

    /// Every stored record.
    fn list(&self) -> (r: Result<Vec<Instrument>, DomainError>)
        ensures
            self.list_outcome(r),
            r matches Ok(v) ==> lists_exactly(v@, self.stored()),
    ;

    /// The record stored under `id`; `NotFound` carrying the identifier's
    /// text where there is none.
    fn get(&self, id: InstrumentId) -> (r: Result<Instrument, DomainError>)
        ensures
            self.get_outcome(id, r),
            r matches Ok(i) ==> self.stored().contains_key(id.0) && i == self.stored()[id.0],
            !self.stored().contains_key(id.0) ==> (r matches Err(DomainError::NotFound(s))
                && s@ == uuid_text(id.0)),
    ;

    /// Stores `instrument` under its identifier, replacing any record
    /// stored there, and hands it back.
    fn save(&mut self, instrument: Instrument) -> (r: Result<Instrument, DomainError>)
        ensures
            old(self).save_outcome(instrument, r),
            r matches Ok(i) ==> i == instrument && final(self).stored() == old(
                self,
            ).stored().insert(instrument.id.0, instrument),
            r is Err ==> final(self).stored() == old(self).stored(),
    ;
}

/// In-memory [`InstrumentRepository`], for development and testing and
/// as the reference adapter of the port.
pub struct InMemoryInstrumentRepository {
    store: HashMap<u128, Instrument>,
}

impl InMemoryInstrumentRepository {
    /// Every record sits under its own identifier.
    #[verifier::type_invariant]
    closed spec fn keyed_by_id(&self) -> bool {
        forall|k: u128| #[trigger] self.store@.contains_key(k) ==> self.store@[k].id.0 == k
    }

    /// An empty repository.
    pub fn new() -> (r: Self)
        ensures
            r.stored() == Map::<u128, Instrument>::empty(),
    {
        InMemoryInstrumentRepository { store: HashMap::new() }
    }
}

impl InstrumentRepository for InMemoryInstrumentRepository {
    closed spec fn stored(&self) -> Map<u128, Instrument> {
        self.store@
    }

    /// Listing always succeeds, with every stored record once.
    open spec fn list_outcome(&self, r: Result<Vec<Instrument>, DomainError>) -> bool {
        r matches Ok(v) && lists_exactly(v@, self.stored())
    }

    /// The stored record, or `NotFound` with the identifier's text.
    open spec fn get_outcome(&self, id: InstrumentId, r: Result<Instrument, DomainError>) -> bool {
        if self.stored().contains_key(id.0) {
            r == Ok::<Instrument, DomainError>(self.stored()[id.0])
        } else {
            r matches Err(DomainError::NotFound(s)) && s@ == uuid_text(id.0)
        }
    }

    /// Saving always succeeds and hands the record back.
    open spec fn save_outcome(&self, instrument: Instrument, r: Result<Instrument, DomainError>) -> bool {
        r == Ok::<Instrument, DomainError>(instrument)
    }

    fn list(&self) -> (r: Result<Vec<Instrument>, DomainError>)
        ensures
            r is Ok,
    {
        proof {
            use_type_invariant(self);
        }
        let mut out: Vec<Instrument> = Vec::new();
        let pairs_iter = self.store.iter();
        let ghost pairs = pairs_iter.remaining();
        proof {
            vstd::std_specs::hash::axiom_spec_hash_map_iter(&self.store);
            assert(pairs.no_duplicates());
            assert(pairs.len() == self.store@.dom().len());
        }
        for pair in it: pairs_iter
            invariant
                it.seq() == pairs,
                out@.len() == it.index(),
                forall|k: int| 0 <= k < out@.len() ==> #[trigger] out@[k] == *pairs[k].1,
        {
            out.push(pair.1.clone());
        }
        proof {
            let m = self.store@;
            assert forall|i: int| 0 <= i < out@.len() implies m.contains_key(
                #[trigger] out@[i].id.0,
            ) && m[out@[i].id.0] == out@[i] by {
                assert(m.contains_key(*pairs[i].0) && m[*pairs[i].0] == *pairs[i].1);
            }
            assert forall|i: int, j: int| 0 <= i < j < out@.len() implies out@[i].id
                != out@[j].id by {
                assert(m.contains_key(*pairs[i].0) && m[*pairs[i].0] == *pairs[i].1);
                assert(m.contains_key(*pairs[j].0) && m[*pairs[j].0] == *pairs[j].1);
                if out@[i].id == out@[j].id {
                    assert(pairs[i] == pairs[j]);
                }
            }
        }
        Ok(out)
    }

    fn get(&self, id: InstrumentId) -> (r: Result<Instrument, DomainError>)
        ensures
            r is Ok <==> self.stored().contains_key(id.0),
    {
        match self.store.get(&id.0) {
            Some(found) => Ok(found.clone()),
            None => Err(DomainError::NotFound(id.to_string())),
        }
    }

    fn save(&mut self, instrument: Instrument) -> (r: Result<Instrument, DomainError>)
        ensures
            r is Ok,
    {
        proof {
            use_type_invariant(&*self);
        }
        let copy = instrument.clone();
        let mut store: HashMap<u128, Instrument> = HashMap::new();
        std::mem::swap(&mut store, &mut self.store);
        store.insert(instrument.id.0, copy);
        self.store = store;
        Ok(instrument)
    }
}

/// What a save stores, a later read gives back: after `save` of `i`
/// succeeds, the repository holds `i` under its identifier (so `get` of
/// that identifier returns `i`) and every other record as before.
pub proof fn law_read_after_save(
    before: Map<u128, Instrument>,
    after: Map<u128, Instrument>,
    i: Instrument,
)
    requires
        after == before.insert(i.id.0, i),
    ensures
        after.contains_key(i.id.0),
        after[i.id.0] == i,
        forall|k: u128|
            k != i.id.0 ==> (#[trigger] after.contains_key(k) == before.contains_key(k)) && (
            before.contains_key(k) ==> after[k] == before[k]),
{
}

} // verus!
