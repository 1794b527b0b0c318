//! The sparse tile store: one mapping from packed key to `Tile`.
//!
//! Grid tiles, region seeds and the two metadata records live together in a
//! single mapping, as the persisted form does.  A hash table serves lookups;
//! a key list alongside it fixes the order in which entries are written out.

use vstd::prelude::*;
use std::collections::HashMap;
use crate::tile::{Tile, TileView, valid_key};

verus! {

broadcast use vstd::std_specs::hash::group_hash_axioms;

/// Every neighbour key the tile records is a key the store could hold.
pub open spec fn valid_neighbors(t: TileView) -> bool {
    forall|i: int| 0 <= i < t.neighbors.len() ==> valid_key(#[trigger] t.neighbors[i])
}

/// The sparse mapping from packed tile key to tile.
#[derive(Debug)]
pub struct TileStore {
    table: HashMap<u128, Tile>,
    order: Vec<u128>,
}

impl View for TileStore {
    type V = Map<u128, TileView>;

    closed spec fn view(&self) -> Map<u128, TileView> {
        self.table@.map_values(|t: Tile| t@)
    }
}

impl TileStore {
    /// The store's internal shape: the key list names each stored key
    /// exactly once, and every stored key and neighbour key is valid.
    pub closed spec fn wf(&self) -> bool {
        &&& self.order@.no_duplicates()
        &&& self.order@.to_set() == self.table@.dom()
        &&& forall|k: u128| #[trigger] self@.dom().contains(k) ==> valid_key(k)
            && valid_neighbors(self@[k])
    }

    /// The stored keys, in insertion order.
    pub closed spec fn entry_keys(&self) -> Seq<u128> {
        self.order@
    }

    /// The view's domain is the hash table's domain.
    proof fn lemma_view_dom(&self)
        ensures
            self@.dom() =~= self.table@.dom(),
    {
    }

    /// What `wf` guarantees of the key list and the stored tiles.
    pub proof fn lemma_wf_entries(&self)
        requires
            self.wf(),
        ensures
            self.entry_keys().no_duplicates(),
            self.entry_keys().to_set() == self@.dom(),
            self.entry_keys().len() == self@.len(),
            forall|k: u128| #[trigger] self@.dom().contains(k) ==> valid_key(k)
                && valid_neighbors(self@[k]),
            forall|i: int| 0 <= i < self.entry_keys().len() ==> self@.dom().contains(
                #[trigger] self.entry_keys()[i],
            ),
            forall|k: u128| #[trigger] self@.dom().contains(k) ==> -0x8000_0000 <= self@[k].y
                < 0x8000_0000 && -0x8000_0000 <= self@[k].x < 0x8000_0000,
    {
        self.lemma_view_dom();
        assert forall|k: u128| #[trigger] self@.dom().contains(k) implies -0x8000_0000 <= self@[k].y
            < 0x8000_0000 && -0x8000_0000 <= self@[k].x < 0x8000_0000 by {
            assert(self@[k] == self.table@[k]@);
        }
        self.order@.unique_seq_to_set();
        assert forall|i: int| 0 <= i < self.entry_keys().len() implies self@.dom().contains(
            #[trigger] self.entry_keys()[i],
        ) by {
            assert(self.order@.to_set().contains(self.order@[i]));
        }
    }

    /// An empty store.
    pub fn new() -> (s: TileStore)
        ensures
            s@ == Map::<u128, TileView>::empty(),
            s.wf(),
            s.entry_keys() == Seq::<u128>::empty(),
    {
        let s = TileStore { table: HashMap::new(), order: Vec::new() };
        proof {
            assert(s@ =~= Map::<u128, TileView>::empty());
            assert(s.order@.to_set() =~= s.table@.dom());
        }
        s
    }

    /// How many entries the store holds.
    pub fn len(&self) -> (n: usize)
        requires
            self.wf(),
        ensures
            n == self@.len(),
    {
        proof {
            self.lemma_wf_entries();
        }
        self.order.len()
    }

    /// Insert a tile under a key, replacing any previous tile there.
    pub fn insert(&mut self, k: u128, t: Tile)
        requires
            old(self).wf(),
            valid_key(k),
            valid_neighbors(t@),
        ensures
            final(self).wf(),
            final(self)@ == old(self)@.insert(k, t@),
            old(self)@.dom().contains(k) ==> final(self).entry_keys() == old(self).entry_keys(),
            !old(self)@.dom().contains(k) ==> final(self).entry_keys() == old(
                self,
            ).entry_keys().push(k),
            old(self)@.dom().contains(k) ==> final(self)@.len() == old(self)@.len(),
            !old(self)@.dom().contains(k) ==> final(self)@.len() == old(self)@.len() + 1,
    {
        proof {
            self.lemma_view_dom();
        }
        let had = self.table.contains_key(&k);
        self.table.insert(k, t);
        if !had {
            self.order.push(k);
            proof {
                assert(!old(self).order@.to_set().contains(k));
                assert(forall|i: int|
                    0 <= i < old(self).order@.len() ==> old(self).order@[i] == #[trigger] self.order@[i]);
                assert(self.order@.no_duplicates());
                assert(self.order@.to_set() =~= old(self).order@.to_set().insert(k)) by {
                    assert forall|e: u128| self.order@.to_set().contains(e) implies old(
                        self,
                    ).order@.to_set().insert(k).contains(e) by {
                        let i = choose|i: int| 0 <= i < self.order@.len() && self.order@[i] == e;
                        if i < old(self).order@.len() {
                            assert(old(self).order@.to_set().contains(e));
                        }
                    }
                    assert forall|e: u128|
                        old(self).order@.to_set().insert(k).contains(e) implies self.order@.to_set()
                        .contains(e) by {
                        if e == k {
                            assert(self.order@[self.order@.len() - 1] == k);
                        } else {
                            let i = choose|i: int|
                                0 <= i < old(self).order@.len() && old(self).order@[i] == e;
                            assert(self.order@[i] == e);
                        }
                    }
                }
            }
        }
        proof {
            assert(self@ =~= old(self)@.insert(k, t@));
            self.lemma_view_dom();
            assert(self.table@.dom() =~= old(self).table@.dom().insert(k));
            if had {
                assert(self.table@.dom() =~= old(self).table@.dom());
            }
            assert forall|k2: u128| #[trigger] self@.dom().contains(k2) implies valid_key(k2)
                && valid_neighbors(self@[k2]) by {
                if k2 != k {
                    assert(old(self)@.dom().contains(k2));
                    assert(self@[k2] == old(self)@[k2]);
                }
            }
            assert(old(self).table@.dom().finite());
            assert(old(self)@.dom() =~= old(self).table@.dom());
            assert(self@.dom() =~= old(self)@.dom().insert(k));
        }
    }

    /// Does the store hold a tile under this key?
    pub fn contains_key(&self, k: u128) -> (r: bool)
        ensures
            r == self@.dom().contains(k),
    {
        proof {
            self.lemma_view_dom();
        }
        self.table.contains_key(&k)
    }

    /// The tile stored under a key, if any.
    pub fn get(&self, k: u128) -> (r: Option<&Tile>)
        ensures
            match r {
                Some(t) => self@.dom().contains(k) && self@[k] == t@,
                None => !self@.dom().contains(k),
            },
    {
        proof {
            self.lemma_view_dom();
        }
        self.table.get(&k)
    }

    /// The key at a position of the insertion order.
    pub fn key_at(&self, i: usize) -> (k: u128)
        requires
            i < self.entry_keys().len(),
        ensures
            k == self.entry_keys()[i as int],
    {
        self.order[i]
    }

    /// How many keys the insertion order lists.
    pub fn order_len(&self) -> (n: usize)
        ensures
            n == self.entry_keys().len(),
    {
        self.order.len()
    }
}

/// A complete map: its three fixed symbols and the tile store.
#[derive(Debug)]
pub struct TileMap {
    pub map_wall: char,
    pub map_floor: char,
    pub map_player: char,
    pub map_game_objects: TileStore,
}

impl TileMap {
    /// The mathematical content of the store.
    pub open spec fn objects(&self) -> Map<u128, TileView> {
        self.map_game_objects@
    }

    /// A map is well formed when its store is.
    pub open spec fn wf(&self) -> bool {
        self.map_game_objects.wf()
    }
}

} // verus!
