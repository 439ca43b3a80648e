//! The in-memory index: a hash map from key to the position of the key's live
//! record, which can also be walked entry by entry.
use vstd::prelude::*;
use vstd::hash_map::StringHashMap;

verus! {

/// Where a record lies: its segment's generation, its byte offset in that
/// segment, and its length in bytes.
#[derive(Clone, Copy, PartialEq, Eq, Structural, Debug)]
pub struct CommandPos {
    pub gen: u64,
    pub pos: u64,
    pub len: u64,
}

/// A map from key to `CommandPos`. Each entry also knows its slot in a vector
/// of the keys, so that the entries can be walked, and a removal stays a
/// constant-time operation: the last key moves into the freed slot.
pub struct KeyIndex {
    slots: StringHashMap<(CommandPos, usize)>,
    keys: Vec<String>,
}

impl View for KeyIndex {
    type V = Map<Seq<char>, CommandPos>;

    closed spec fn view(&self) -> Map<Seq<char>, CommandPos> {
        Map::new(|k: Seq<char>| self.slots@.contains_key(k), |k: Seq<char>| self.slots@[k].0)
    }
}

impl KeyIndex {
    /// The keys in the order in which `key_at` gives them.
    pub closed spec fn key_seq(&self) -> Seq<Seq<char>> {
        self.keys@.map_values(|s: String| s@)
    }

    pub closed spec fn wf(&self) -> bool {
        &&& forall|i: int|
            0 <= i < self.keys@.len() ==> #[trigger] self.slots@.contains_key(self.keys@[i]@)
                && self.slots@[self.keys@[i]@].1 == i
        &&& forall|k: Seq<char>| #[trigger]
            self.slots@.contains_key(k) ==> self.slots@[k].1 < self.keys@.len()
                && self.keys@[self.slots@[k].1 as int]@ == k
    }

    /// The key sequence lists the index's keys, each once.
    pub proof fn lemma_keys(&self)
        requires
            self.wf(),
        ensures
            self.key_seq().no_duplicates(),
            forall|k: Seq<char>| self@.contains_key(k) <==> #[trigger] self.key_seq().contains(k),
            self.key_seq().len() == self@.dom().len(),
    {
        let ks = self.key_seq();
        assert forall|i: int, j: int| 0 <= i < ks.len() && 0 <= j < ks.len() && i != j implies ks[i]
            != ks[j] by {
            assert(self.slots@.contains_key(self.keys@[i]@));
            assert(self.slots@.contains_key(self.keys@[j]@));
        }
        assert forall|k: Seq<char>| self@.contains_key(k) <==> #[trigger] ks.contains(k) by {
            if self.slots@.contains_key(k) {
                assert(ks[self.slots@[k].1 as int] == k);
            }
            if ks.contains(k) {
                let i = choose|i: int| 0 <= i < ks.len() && ks[i] == k;
                assert(self.slots@.contains_key(self.keys@[i]@));
            }
        }
        ks.unique_seq_to_set();
        assert(ks.to_set() =~= self@.dom());
    }

    /// An empty index.
    pub fn new() -> (r: KeyIndex)
        ensures
            r.wf(),
            r@ == Map::<Seq<char>, CommandPos>::empty(),
    {
        let r = KeyIndex { slots: StringHashMap::new(), keys: Vec::new() };
        assert(r@ =~= Map::<Seq<char>, CommandPos>::empty());
        r
    }

    /// The number of keys.
    pub fn len(&self) -> (r: usize)
        requires
            self.wf(),
        ensures
            r == self.key_seq().len(),
            r == self@.dom().len(),
    {
        proof {
            self.lemma_keys();
        }
        self.keys.len()
    }

    /// The key in slot `i`.
    pub fn key_at(&self, i: usize) -> (r: &String)
        requires
            self.wf(),
            i < self.key_seq().len(),
        ensures
            r@ == self.key_seq()[i as int],
    {
        &self.keys[i]
    }

    /// The position recorded for `k`, if any.
    pub fn get(&self, k: &str) -> (r: Option<CommandPos>)
        ensures
            r == (if self@.contains_key(k@) {
                Some(self@[k@])
            } else {
                None
            }),
    {
        match self.slots.get(k) {
            Some(e) => Some(e.0),
            None => None,
        }
    }

    /// Records `cp` for `k`, and gives the position it replaces, if any.
    pub fn insert(&mut self, k: String, cp: CommandPos) -> (r: Option<CommandPos>)
        requires
            old(self).wf(),
        ensures
            final(self).wf(),
            final(self)@ == old(self)@.insert(k@, cp),
            r == (if old(self)@.contains_key(k@) {
                Some(old(self)@[k@])
            } else {
                None
            }),
            old(self)@.contains_key(k@) ==> final(self).key_seq() == old(self).key_seq(),
            !old(self)@.contains_key(k@) ==> final(self).key_seq() == old(self).key_seq().push(
                k@,
            ),
    {
        let ghost old_self = *self;
        match self.slots.get(k.as_str()) {
            Some(e) => {
                let (prev, slot) = *e;
                self.slots.insert(k, (cp, slot));
                assert(self@ =~= old_self@.insert(k@, cp));
                assert(self.wf()) by {
                    assert forall|i: int| 0 <= i < self.keys@.len() implies #[trigger]
                        self.slots@.contains_key(self.keys@[i]@) && self.slots@[self.keys@[i]@].1
                            == i by {
                        assert(old_self.slots@.contains_key(self.keys@[i]@));
                    }
                }
                Some(prev)
            },
            None => {
                let slot = self.keys.len();
                self.keys.push(k.clone());
                self.slots.insert(k, (cp, slot));
                assert(self@ =~= old_self@.insert(k@, cp));
                assert(self.key_seq() =~= old_self.key_seq().push(k@));
                assert(self.wf()) by {
                    assert forall|i: int| 0 <= i < self.keys@.len() implies #[trigger]
                        self.slots@.contains_key(self.keys@[i]@) && self.slots@[self.keys@[i]@].1
                            == i by {
                        if i < slot {
                            assert(old_self.slots@.contains_key(self.keys@[i]@));
                        }
                    }
                }
                None
            },
        }
    }

    /// Removes `k`, and gives the position it had, if any.
    pub fn remove(&mut self, k: &str) -> (r: Option<CommandPos>)
        requires
            old(self).wf(),
        ensures
            final(self).wf(),
            final(self)@ == old(self)@.remove(k@),
            r == (if old(self)@.contains_key(k@) {
                Some(old(self)@[k@])
            } else {
                None
            }),
    {
        let ghost old_self = *self;
        match self.slots.get(k) {
            None => {
                assert(self@ =~= old_self@.remove(k@));
                None
            },
            Some(e) => {
                let (prev, slot) = *e;
                let last = self.keys.len() - 1;
                self.slots.remove(k);
                self.keys.swap_remove(slot);
                if slot < last {
                    let moved = self.keys[slot].clone();
                    let ghost mk = moved@;
                    assert(mk == old_self.keys@[last as int]@);
                    assert(old_self.slots@.contains_key(mk));
                    match self.slots.get(moved.as_str()) {
                        Some(me) => {
                            let mcp = me.0;
                            self.slots.insert(moved, (mcp, slot));
                        },
                        None => {},
                    }
                }
                assert(self@ =~= old_self@.remove(k@));
                assert(self.wf()) by {
                    assert forall|i: int| 0 <= i < self.keys@.len() implies #[trigger]
                        self.slots@.contains_key(self.keys@[i]@) && self.slots@[self.keys@[i]@].1
                            == i by {
                        assert(old_self.slots@.contains_key(old_self.keys@[i]@));
                        if i != slot {
                            assert(self.keys@[i] == old_self.keys@[i]);
                        }
                    }
                    assert forall|q: Seq<char>| #[trigger]
                        self.slots@.contains_key(q) implies self.slots@[q].1 < self.keys@.len()
                            && self.keys@[self.slots@[q].1 as int]@ == q by {
                        assert(old_self.slots@.contains_key(q));
                    }
                }
                Some(prev)
            },
        }
    }

    /// Records `cp` for the key in slot `i`.
    pub fn replace_at(&mut self, i: usize, cp: CommandPos)
        requires
            old(self).wf(),
            i < old(self).key_seq().len(),
        ensures
            final(self).wf(),
            final(self)@ == old(self)@.insert(old(self).key_seq()[i as int], cp),
            final(self).key_seq() == old(self).key_seq(),
    {
        let ghost old_self = *self;
        let k = self.keys[i].clone();
        proof {
            assert(old_self.slots@.contains_key(old_self.keys@[i as int]@));
        }
        self.slots.insert(k, (cp, i));
        assert(self@ =~= old_self@.insert(old_self.key_seq()[i as int], cp));
        assert(self.wf()) by {
            assert forall|j: int| 0 <= j < self.keys@.len() implies #[trigger]
                self.slots@.contains_key(self.keys@[j]@) && self.slots@[self.keys@[j]@].1 == j by {
                assert(old_self.slots@.contains_key(old_self.keys@[j]@));
            }
        }
    }
}

} // verus!
