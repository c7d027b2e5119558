//! The domain store: tag-indexed shared data scoped to one domain, accessible
//! to every activity registered on that domain.

use crate::assoc::alist_map;
use crate::assoc::lemma_alist_map_push;
use crate::assoc::lemma_alist_map_update_last;
use vstd::prelude::*;

verus! {

/// Stores passive data shared between the activities of one domain.
///
/// Each stored value is keyed by a tag; at most one value is reachable per
/// tag, and storing a second value under a tag makes the earlier one
/// unreachable (last writer wins, no merge). The view of the store is the
/// mapping from tag to the reachable value.
pub struct DomainState<D> {
    /// The stored values, latest binding of each tag last.
    pub(crate) objects: Vec<(u64, D)>,
}

impl<D> View for DomainState<D> {
    type V = Map<u64, D>;

    closed spec fn view(&self) -> Map<u64, D> {
        alist_map(self.objects@)
    }
}

impl<D> Default for DomainState<D> {
    /// A store with nothing in it.
    fn default() -> (r: Self)
        ensures
            r@ == Map::<u64, D>::empty(),
    {
        DomainState::new()
    }
}

impl<D> DomainState<D> {
    /// A store with nothing in it.
    pub fn new() -> (r: Self)
        ensures
            r@ == Map::<u64, D>::empty(),
    {
        let r = DomainState { objects: Vec::new() };
        proof {
            assert(r@ =~= Map::<u64, D>::empty());
        }
        r
    }

    /// Stores a value under `tag`. Only one value per tag is reachable in a
    /// domain: if an old value of the same tag is already present, it is
    /// overwritten.
    pub fn store(&mut self, tag: u64, obj: D)
        ensures
            final(self)@ == old(self)@.insert(tag, obj),
    {
        match crate::assoc::alist_find_last(&self.objects, tag) {
            Some(i) => {
                let ghost s0 = self.objects@;
                let r = &mut self.objects[i];
                *r = (tag, obj);
                proof {
                    lemma_alist_map_update_last(s0, i as int, tag, obj);
                }
            },
            None => {
                proof {
                    lemma_alist_map_push(self.objects@, tag, obj);
                }
                self.objects.push((tag, obj));
            },
        }
    }

    /// A reference to the value stored under `tag`, if one has previously
    /// been stored in this domain.
    pub fn try_get(&self, tag: u64) -> (r: Option<&D>)
        ensures
            match r {
                Some(v) => self@.contains_key(tag) && *v == self@[tag],
                None => !self@.contains_key(tag),
            },
    {
        match crate::assoc::alist_find_last(&self.objects, tag) {
            Some(i) => Some(&self.objects[i].1),
            None => None,
        }
    }

    /// Same as [`DomainState::try_get`] but grants mutable access to the
    /// stored value.
    pub fn try_get_mut(&mut self, tag: u64) -> (r: Option<&mut D>)
        ensures
            old(self)@.contains_key(tag) ==> (r matches Some(v) && *v == old(self)@[tag]
                && final(self)@ == old(self)@.insert(tag, *final(v))),
            !old(self)@.contains_key(tag) ==> r is None && final(self)@ == old(self)@,
    {
        match crate::assoc::alist_find_last(&self.objects, tag) {
            Some(i) => {
                let ghost s0 = self.objects@;
                let r = &mut self.objects[i].1;
                proof {
                    lemma_alist_map_update_last(s0, i as int, tag, *final(r));
                }
                Some(r)
            },
            None => None,
        }
    }

    /// A reference to the value stored under `tag`, which callers use only
    /// once a prior store under `tag` is established.
    pub fn get(&self, tag: u64) -> (r: &D)
        requires
            self@.contains_key(tag),
        ensures
            *r == self@[tag],
    {
        match crate::assoc::alist_find_last(&self.objects, tag) {
            Some(i) => &self.objects[i].1,
            None => vstd::pervasive::unreached(),
        }
    }

    /// Same as [`DomainState::get`] but grants mutable access to the stored
    /// value.
    pub fn get_mut(&mut self, tag: u64) -> (r: &mut D)
        requires
            old(self)@.contains_key(tag),
        ensures
            *r == old(self)@[tag],
            final(self)@ == old(self)@.insert(tag, *final(r)),
    {
        match crate::assoc::alist_find_last(&self.objects, tag) {
            Some(i) => {
                let ghost s0 = self.objects@;
                let r = &mut self.objects[i].1;
                proof {
                    lemma_alist_map_update_last(s0, i as int, tag, *final(r));
                }
                r
            },
            None => vstd::pervasive::unreached(),
        }
    }
}

/// Round trip of the store: after a value is stored under a tag, that value
/// is the one the domain holds for the tag; storing a second value under the
/// same tag makes the first unreachable.
pub proof fn lemma_store_round_trip<D>(m: Map<u64, D>, tag: u64, v: D, w: D)
    ensures
        m.insert(tag, v).contains_key(tag),
        m.insert(tag, v)[tag] == v,
        m.insert(tag, v).insert(tag, w)[tag] == w,
{
}

} // verus!
