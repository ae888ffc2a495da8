//! Sets of object ids.

use vstd::prelude::*;

use crate::bytemap::{lists_keys, sorted_keys, ByteMap};
use crate::object::commit::ids_view;
use crate::object::ObjectId;

verus! {

/// A set of object ids.
#[derive(Debug)]
pub struct IdSet {
    ids: ByteMap<ObjectId>,
}

impl View for IdSet {
    type V = Set<Seq<u8>>;

    closed spec fn view(&self) -> Set<Seq<u8>> {
        self.ids@.dom()
    }
}

impl IdSet {
    #[verifier::type_invariant]
    closed spec fn inv(&self) -> bool {
        forall|k: Seq<u8>| #[trigger] self.ids@.contains_key(k) ==> self.ids@[k] == k
    }

    /// The empty set.
    pub fn new() -> (r: IdSet)
        ensures
            r@ == Set::<Seq<u8>>::empty(),
    {
        let r = IdSet { ids: ByteMap::new() };
        assert(r@ =~= Set::<Seq<u8>>::empty());
        r
    }

    /// Whether the set has the id.
    pub fn contains(&self, id: &ObjectId) -> (r: bool)
        ensures
            r <==> self@.contains(id@),
    {
        self.ids.has(id.as_bytes())
    }

    /// Adds an id, and says whether it is new.
    pub fn insert(&mut self, id: &ObjectId) -> (r: bool)
        ensures
            r <==> !old(self)@.contains(id@),
            final(self)@ == old(self)@.insert(id@),
    {
        proof {
            use_type_invariant(&*self);
        }
        if self.contains(id) {
            assert(self@.insert(id@) =~= self@);
            return false;
        }
        let mut ids: ByteMap<ObjectId> = ByteMap::new();
        std::mem::swap(&mut self.ids, &mut ids);
        ids.put(id.as_bytes(), *id);
        *self = IdSet { ids };
        assert(self@ =~= old(self)@.insert(id@));
        true
    }

    /// How many ids the set has.
    pub fn len(&self) -> (r: usize)
        ensures
            r == self@.len(),
            self@.finite(),
    {
        self.ids.count()
    }

    /// Whether the set has no id.
    pub fn is_empty(&self) -> (r: bool)
        ensures
            r <==> self@ == Set::<Seq<u8>>::empty(),
    {
        let n = self.ids.count();
        proof {
            if n == 0 {
                assert(self@ =~= Set::<Seq<u8>>::empty());
            }
        }
        n == 0
    }

    /// The ids in ascending order.
    pub fn to_vec(&self) -> (r: Vec<ObjectId>)
        ensures
            ids_view(r@) == sorted_keys(self@),
            lists_keys(ids_view(r@), self@),
            r@.len() == self@.len(),
            self@.finite(),
    {
        proof {
            use_type_invariant(self);
        }
        let mut out: Vec<ObjectId> = Vec::new();
        let n: usize = self.ids.count();
        let ghost keys = self.ids.keys();
        let mut i: usize = 0;
        assert(ids_view(out@) =~= keys.take(0));
        while i < n
            invariant
                i <= n,
                n == keys.len(),
                keys == self.ids.keys(),
                forall|k: Seq<u8>| #[trigger] self.ids@.contains_key(k) ==> self.ids@[k] == k,
                ids_view(out@) == keys.take(i as int),
            decreases n - i,
        {
            let ghost before = out@;
            let id: ObjectId = *self.ids.value(i);
            out.push(id);
            assert(ids_view(out@) =~= ids_view(before).push(id@));
            assert(keys.take(i + 1) =~= keys.take(i as int).push(keys[i as int]));
            i += 1;
        }
        assert(keys.take(i as int) =~= keys);
        out
    }
}

impl Default for IdSet {
    fn default() -> (r: IdSet)
        ensures
            r@ == Set::<Seq<u8>>::empty(),
    {
        IdSet::new()
    }
}

} // verus!
