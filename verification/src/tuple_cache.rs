//! The single-slot tuple lookaside cache.
//!
//! An index-driven scan step that has already fetched and decoded a full
//! row can leave it here for the immediately following row-fetch step,
//! saving that step a duplicate point lookup. The slot holds at most one
//! row, keyed by row id; it is not a general-purpose cache. A lookup with a
//! non-matching or absent id returns nothing and leaves the slot empty, and
//! a hit hands the row out and leaves the slot empty too, so nothing stale
//! survives past one consumer step.

use vstd::prelude::*;

use crate::coding::Tuple;

verus! {

/// The single cache slot: at most one decoded row, keyed by its row id.
pub struct TupleCache {
    slot: Option<Tuple>,
}

impl TupleCache {
    /// What the slot holds, as the cached row's id and datums.
    pub closed spec fn slot_view(&self) -> Option<(u32, Seq<Option<Seq<u8>>>)> {
        match self.slot {
            Option::None => Option::None,
            Option::Some(t) => Option::Some((t.id, t.datums.deep_view())),
        }
    }

    /// A fresh, empty cache.
    pub fn new() -> (r: TupleCache)
        ensures
            r.slot_view() is None,
    {
        TupleCache { slot: Option::None }
    }

    /// Takes the cached row when `id` matches it. Any lookup leaves the
    /// slot empty: a hit hands the row out, and a miss — a non-matching or
    /// absent id — returns nothing.
    pub fn get_with_id(&mut self, id: u32) -> (r: Option<Tuple>)
        ensures
            final(self).slot_view() is None,
            match old(self).slot_view() {
                Option::Some((cached_id, ds)) => (if cached_id == id {
                    r matches Option::Some(t) && t.id == id && t.datums.deep_view() == ds
                } else {
                    r is None
                }),
                Option::None => r is None,
            },
    {
        let taken = self.slot.take();
        match taken {
            Option::Some(t) => {
                if t.id == id {
                    Option::Some(t)
                } else {
                    Option::None
                }
            },
            Option::None => Option::None,
        }
    }

    /// Leaves one row in the slot, keyed by its own id, replacing whatever
    /// was there.
    pub fn populate(&mut self, tuple: Tuple)
        ensures
            final(self).slot_view() == Option::Some((tuple.id, tuple.datums.deep_view())),
    {
        self.slot = Option::Some(tuple);
    }

    /// Empties the slot.
    pub fn clear(&mut self)
        ensures
            final(self).slot_view() is None,
    {
        self.slot = Option::None;
    }
}

} // verus!
