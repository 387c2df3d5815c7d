//! Object stores: what any store does, and the store in memory.

use vstd::prelude::*;

use crate::git::object::Object;
use crate::git::object::ObjectId;
use crate::git::object::ObjectModel;
use crate::sorted::Key;
use crate::sorted::SortedMap;
use crate::git::object;
use crate::sorted;
use crate::text;

verus! {

/// Why a store could not do what it was asked.
#[derive(Clone, Debug, PartialEq, Eq)]
pub enum StoreError {
    /// There is no object with the id.
    NotFound(ObjectId),
    /// The store itself failed, or held something else.
    Io(String),
}

impl StoreError {
    /// What the error says.
    pub open spec fn words(&self) -> Seq<char> {
        match self {
            StoreError::NotFound(id) => "object not found: "@ + object::cut_to(id@, 8),
            StoreError::Io(m) => "io error: "@ + m@,
        }
    }

    /// The error as a message.
    pub fn message(&self) -> (s: String)
        requires
            self is NotFound ==> object::cuts_at(self->NotFound_0@, 8),
        ensures
            s@ == self.words(),
    {
        match self {
            StoreError::NotFound(id) => text::concat2("object not found: ", id.short().as_str()),
            StoreError::Io(m) => text::concat2("io error: ", m.as_str()),
        }
    }
}

/// A store of objects by id.
pub trait ObjectStore: Sized {
    spec fn wf(&self) -> bool;

    /// What stands under each id; of an object that cannot be read, the words of the
    /// failure.
    spec fn contents(&self) -> Map<Seq<char>, ObjectModel>;

    /// Whether the store never fails to write or to list.
    spec fn reliable(&self) -> bool;

    /// Whether the store can delete objects.
    spec fn deletes(&self) -> bool;

    /// Whether the store keeps a head.
    spec fn keeps_head(&self) -> bool;

    /// The head it keeps.
    spec fn kept_head(&self) -> Option<Seq<char>>;

    /// A store holds finitely many objects.
    proof fn finite(&self)
        requires
            self.wf(),
        ensures
            self.contents().dom().finite(),
    ;

    /// Puts an object under an id.
    fn put(&mut self, id: &ObjectId, object: &Object) -> (r: Result<(), StoreError>)
        requires
            old(self).wf(),
        ensures
            final(self).wf(),
            final(self).reliable() == old(self).reliable(),
            final(self).deletes() == old(self).deletes(),
            final(self).keeps_head() == old(self).keeps_head(),
            final(self).kept_head() == old(self).kept_head(),
            r is Ok ==> final(self).contents() == old(self).contents().insert(id@, object@),
            final(self).contents().remove(id@) == old(self).contents().remove(id@),
            old(self).reliable() ==> r is Ok,
    ;

    /// The object under an id; an error where there is none, or it cannot be read.
    fn get(&self, id: &ObjectId) -> (r: Result<Object, StoreError>)
        requires
            self.wf(),
        ensures
            match r {
                Ok(o) => self.contents().dom().contains(id@) && self.contents()[id@] == o@,
                Err(StoreError::NotFound(x)) => x@ == id@ && !self.contents().dom().contains(id@),
                Err(StoreError::Io(w)) => self.contents().dom().contains(id@) && self.contents()[id@]
                    == ObjectModel::Spoiled(w@),
            },
    ;

    /// Whether there is an object under an id.
    fn contains(&self, id: &ObjectId) -> (yes: bool)
        requires
            self.wf(),
        ensures
            self.reliable() ==> yes == self.contents().dom().contains(id@),
    ;

    /// The ids of all objects.
    fn ids(&self) -> (list: Vec<ObjectId>)
        requires
            self.wf(),
        ensures
            self.reliable() ==> object::id_texts(list@).to_set() == self.contents().dom() && object::id_texts(list@).no_duplicates(),
    ;

    /// The number of objects.
    fn len(&self) -> (n: usize)
        requires
            self.wf(),
        ensures
            self.reliable() ==> n == self.contents().dom().len(),
    ;

    fn is_empty(&self) -> (yes: bool)
        requires
            self.wf(),
        ensures
            self.reliable() ==> yes == (self.contents().dom().len() == 0),
    {
        self.len() == 0
    }

    /// Deletes the object under an id.
    fn delete(&mut self, id: &ObjectId) -> (r: Result<(), StoreError>)
        requires
            old(self).wf(),
        ensures
            final(self).wf(),
            final(self).reliable() == old(self).reliable(),
            final(self).deletes() == old(self).deletes(),
            final(self).keeps_head() == old(self).keeps_head(),
            final(self).kept_head() == old(self).kept_head(),
            final(self).contents().remove(id@) == old(self).contents().remove(id@),
            match r {
                Ok(_) => old(self).contents().dom().contains(id@) && final(self).contents() == old(self).contents().remove(id@),
                Err(StoreError::NotFound(x)) => x@ == id@ && !old(self).contents().dom().contains(id@) && final(self).contents() == old(self).contents(),
                Err(StoreError::Io(_)) => final(self).contents() == old(self).contents() && (!old(self).reliable() || !old(self).deletes()),
            },
    ;

    /// Keeps a head, where the store keeps one.
    fn write_head(&mut self, id: &ObjectId) -> (r: Result<(), StoreError>)
        requires
            old(self).wf(),
        ensures
            final(self).wf(),
            final(self).reliable() == old(self).reliable(),
            final(self).deletes() == old(self).deletes(),
            final(self).keeps_head() == old(self).keeps_head(),
            final(self).contents() == old(self).contents(),
            r is Ok ==> final(self).kept_head() == (if old(self).keeps_head() {
                Some(id@)
            } else {
                old(self).kept_head()
            }),
            old(self).reliable() ==> r is Ok,
    ;

    /// The head that the store keeps.
    fn read_head(&self) -> (id: Option<ObjectId>)
        requires
            self.wf(),
        ensures
            self.reliable() ==> (match id {
                Some(i) => self.kept_head() == Some(i@),
                None => self.kept_head() is None,
            }),
    ;
}

/// A store in memory. It keeps no head.
#[derive(Clone, Debug, PartialEq, Eq)]
pub struct MemoryStore {
    map: SortedMap<ObjectId, Object>,
}

impl MemoryStore {
    pub fn new() -> (s: MemoryStore)
        ensures
            s.wf(),
            s.reliable(),
            s.deletes(),
            s.contents() == Map::<Seq<char>, ObjectModel>::empty(),
    {
        let s = MemoryStore { map: SortedMap::new() };
        proof {
            assert(s.contents() =~= Map::<Seq<char>, ObjectModel>::empty());
        }
        s
    }
}

impl Default for MemoryStore {
    fn default() -> (s: MemoryStore)
        ensures
            s.wf(),
            s.reliable(),
            s.deletes(),
            s.contents() == Map::<Seq<char>, ObjectModel>::empty(),
    {
        MemoryStore::new()
    }
}

/// The objects of a map, by the texts of their ids.
pub open spec fn objects_in(m: Map<Seq<u8>, Object>) -> Map<Seq<char>, ObjectModel> {
    Map::new(|id: Seq<char>| m.dom().contains(text::utf8(id)), |id: Seq<char>| m[text::utf8(id)]@)
}

impl ObjectStore for MemoryStore {
    closed spec fn wf(&self) -> bool {
        self.map.wf()
    }

    closed spec fn contents(&self) -> Map<Seq<char>, ObjectModel> {
        objects_in(self.map@)
    }

    open spec fn reliable(&self) -> bool {
        true
    }

    open spec fn deletes(&self) -> bool {
        true
    }

    open spec fn keeps_head(&self) -> bool {
        false
    }

    open spec fn kept_head(&self) -> Option<Seq<char>> {
        None
    }

    proof fn finite(&self) {
        self.id_facts();
        vstd::seq_lib::seq_to_set_is_finite(memory_ids(self.map.entries@));
    }

    fn put(&mut self, id: &ObjectId, object: &Object) -> (r: Result<(), StoreError>) {
        let ghost before = self.contents();
        self.map.insert(id.copy(), object.copy());
        proof {
            assert forall|x: Seq<char>| #[trigger] text::utf8(x) == text::utf8(id@) implies x == id@ by {
                text::utf8_injective(x, id@);
            }
            assert(self.contents() =~= before.insert(id@, object@));
            assert(self.contents().remove(id@) =~= before.remove(id@));
        }
        Ok(())
    }

    fn get(&self, id: &ObjectId) -> (r: Result<Object, StoreError>) {
        match self.map.get(id.key_bytes()) {
            Some(o) => Ok(o.copy()),
            None => Err(StoreError::NotFound(id.copy())),
        }
    }

    fn contains(&self, id: &ObjectId) -> (yes: bool) {
        self.map.contains(id.key_bytes())
    }

    fn ids(&self) -> (list: Vec<ObjectId>) {
        let mut list: Vec<ObjectId> = Vec::new();
        let mut i: usize = 0;
        while i < self.map.entries.len()
            invariant
                i <= self.map.entries@.len(),
                list@.len() == i,
                forall|j: int| 0 <= j < i ==> (#[trigger] list@[j])@ == self.map.entries@[j].0@,
            decreases self.map.entries.len() - i,
        {
            list.push(self.map.entries[i].0.copy());
            i = i + 1;
        }
        proof {
            self.id_facts();
            assert(object::id_texts(list@) =~= memory_ids(self.map.entries@));
        }
        list
    }

    fn len(&self) -> (n: usize) {
        proof {
            self.id_facts();
            memory_ids(self.map.entries@).unique_seq_to_set();
        }
        self.map.len()
    }

    fn delete(&mut self, id: &ObjectId) -> (r: Result<(), StoreError>) {
        let ghost before = self.contents();
        let there = self.map.remove(id.key_bytes());
        proof {
            assert forall|x: Seq<char>| #[trigger] text::utf8(x) == text::utf8(id@) implies x == id@ by {
                text::utf8_injective(x, id@);
            }
            assert(self.contents() =~= before.remove(id@));
            assert(self.contents().remove(id@) =~= before.remove(id@));
            if !there {
                assert(before.remove(id@) =~= before);
            }
        }
        if there {
            Ok(())
        } else {
            Err(StoreError::NotFound(id.copy()))
        }
    }

    fn write_head(&mut self, id: &ObjectId) -> (r: Result<(), StoreError>) {
        Ok(())
    }

    fn read_head(&self) -> (id: Option<ObjectId>) {
        None
    }
}

/// The ids of a list of entries.
spec fn memory_ids(e: Seq<(ObjectId, Object)>) -> Seq<Seq<char>> {
    e.map_values(|p: (ObjectId, Object)| p.0@)
}

impl MemoryStore {
    proof fn id_facts(&self)
        requires
            self.wf(),
        ensures
            memory_ids(self.map.entries@).to_set() == self.contents().dom(),
            memory_ids(self.map.entries@).no_duplicates(),
    {
        self.map.dom_facts();
        self.map.entry_facts();
        let e = self.map.entries@;
        let t = memory_ids(e);
        let k = self.map.keys();
        assert forall|i: int, j: int| 0 <= i < t.len() && 0 <= j < t.len() && i != j implies t[i] != t[j] by {
            if t[i] == t[j] {
                assert(k[i] == text::utf8(t[i]));
                assert(k[j] == text::utf8(t[j]));
            }
        }
        let dom = self.contents().dom();
        assert forall|id: Seq<char>| dom.contains(id) == t.to_set().contains(id) by {
            if dom.contains(id) {
                let i = sorted::slot(e, text::utf8(id));
                assert(e[i].0.key() == text::utf8(id));
                text::utf8_injective(e[i].0@, id);
                assert(t[i] == id);
            }
            if t.contains(id) {
                let i = choose|i: int| 0 <= i < t.len() && t[i] == id;
                assert(e[i].0.key() == text::utf8(id));
            }
        }
        assert(dom =~= t.to_set());
    }
}

} // verus!
