//! A store of loose files: one for each object, and one for the head.

use vstd::prelude::*;

use crate::git::object;
use crate::git::object::Object;
use crate::git::object::ObjectId;
use crate::git::object::ObjectModel;
use crate::git::store::MemoryStore;
use crate::git::store::ObjectStore;
use crate::git::store::StoreError;
use crate::morphisms::scheme;
use crate::table::TextTable;
use crate::text;

verus! {

/// A directory with one file for each object, as its files were read and as they
/// are to be written.
#[derive(Clone, Debug, PartialEq, Eq)]
pub struct LooseStore {
    pub root: String,
    pub objects: MemoryStore,
    /// The names of files that hold no object.
    pub spoiled: TextTable<bool>,
    pub head: Option<ObjectId>,
}

/// The path of a name in a directory.
pub open spec fn inside(dir: Seq<char>, name: Seq<char>) -> Seq<char> {
    if dir.len() == 0 {
        name
    } else if dir.last() == '/' {
        dir + name
    } else {
        dir + "/"@ + name
    }
}

/// The file of an object in a directory.
pub open spec fn object_path(root: Seq<char>, id: Seq<char>) -> Seq<char> {
    inside(inside(inside(root, "objects"@), id.take(2)), id.skip(2))
}

/// Whether an id can be cut behind two characters into the names of a directory
/// and a file.
pub open spec fn splits(id: Seq<char>) -> bool {
    &&& id.len() >= 2
    &&& (id[0] as u32) < 128
    &&& (id[1] as u32) < 128
    &&& forall|i: int| 0 <= i < id.len() ==> #[trigger] id[i] != '/'
}

/// The path of a name in a directory.
fn join_path(dir: &str, name: &str) -> (path: String)
    ensures
        path@ == inside(dir@, name@),
{
    let chars = text::chars_of(dir);
    if chars.len() == 0 {
        text::copy_str(name)
    } else if chars[chars.len() - 1] == '/' {
        text::concat2(dir, name)
    } else {
        text::concat3(dir, "/", name)
    }
}

/// The object in the bytes of a file, where they hold one.
pub open spec fn held_in(bytes: Seq<u8>) -> Option<ObjectModel> {
    if exists|o: ObjectModel| #[trigger] object::shows(bytes, o) {
        Some(choose|o: ObjectModel| #[trigger] object::shows(bytes, o))
    } else {
        None
    }
}

/// Bytes hold one object at most.
proof fn held_is(bytes: Seq<u8>, o: ObjectModel)
    requires
        object::shows(bytes, o),
    ensures
        held_in(bytes) == Some(o),
{
    object::shown_unique(bytes, o, held_in(bytes)->0);
}

/// The words for a file that holds no object.
pub open spec fn corrupt() -> ObjectModel {
    ObjectModel::Spoiled("corrupt object"@)
}

/// What stands in the bytes of a file.
pub open spec fn standing_in(bytes: Seq<u8>) -> ObjectModel {
    match held_in(bytes) {
        Some(o) => o,
        None => corrupt(),
    }
}

impl LooseStore {
    /// The store in a directory, before any of its files is read.
    pub fn new(root: &str) -> (s: LooseStore)
        ensures
            s.wf(),
            s.reliable(),
            s.root@ == root@,
            s.contents() == Map::<Seq<char>, ObjectModel>::empty(),
            s.head is None,
    {
        let s = LooseStore {
            root: text::copy_str(root),
            objects: MemoryStore::new(),
            spoiled: TextTable::new(),
            head: None,
        };
        proof {
            assert(s.contents() =~= Map::<Seq<char>, ObjectModel>::empty());
        }
        s
    }

    /// Takes in what a file of the directory holds.
    pub fn load_file(&mut self, name: &str, bytes: &[u8])
        requires
            old(self).wf(),
        ensures
            final(self).wf(),
            final(self).root == old(self).root,
            final(self).head == old(self).head,
            final(self).contents() == old(self).contents().insert(name@, standing_in(bytes@)),
    {
        let id = ObjectId(text::copy_str(name));
        match Object::deserialize(bytes) {
            Some(o) => {
                proof {
                    held_is(bytes@, o@);
                }
                let _r = self.objects.put(&id, &o);
                let _there = self.spoiled.remove(name);
            },
            None => {
                let _r = self.objects.delete(&id);
                self.spoiled.insert(text::copy_str(name), true);
            },
        }
        proof {
            assert(self.contents() =~= old(self).contents().insert(name@, standing_in(bytes@)));
        }
    }

    /// Takes in the text of the head's file.
    pub fn load_head(&mut self, content: &str)
        requires
            old(self).wf(),
        ensures
            final(self).wf(),
            final(self).root == old(self).root,
            final(self).contents() == old(self).contents(),
            final(self).kept_head() == head_in(content@),
    {
        self.head = parse_head(content);
    }

    /// The path and the bytes of an object's file.
    pub fn file(&self, id: &ObjectId) -> (f: Option<(String, Vec<u8>)>)
        requires
            self.wf(),
            splits(id@),
        ensures
            match f {
                Some(p) => self.contents().dom().contains(id@) && !(self.contents()[id@] is Spoiled) && p.0@ == object_path(self.root@, id@) && p.1@
                    == object::object_bytes(self.contents()[id@]),
                None => !self.contents().dom().contains(id@) || self.contents()[id@] is Spoiled,
            },
    {
        match self.objects.get(id) {
            Ok(o) => Some((self.path_for(id), o.serialize())),
            Err(_) => None,
        }
    }

    /// The directory of the objects.
    pub fn objects_dir(&self) -> (dir: String)
        ensures
            dir@ == inside(self.root@, "objects"@),
    {
        join_path(self.root.as_str(), "objects")
    }

    /// The file of an object: a directory named by the first two characters of its
    /// id, and the rest.
    pub fn path_for(&self, id: &ObjectId) -> (path: String)
        requires
            splits(id@),
        ensures
            path@ == object_path(self.root@, id@),
    {
        let chars = text::chars_of(id.as_str());
        let dir = self.objects_dir();
        let head = text::string_of(vstd::slice::slice_subrange(chars.as_slice(), 0, 2));
        let rest = text::string_of(text::tail_from(chars.as_slice(), 2));
        proof {
            assert(chars@.subrange(0, 2) =~= id@.take(2));
        }
        let shelf = join_path(dir.as_str(), head.as_str());
        join_path(shelf.as_str(), rest.as_str())
    }

    /// The file of the head.
    pub fn head_path(&self) -> (path: String)
        ensures
            path@ == inside(self.root@, "HEAD"@),
    {
        join_path(self.root.as_str(), "HEAD")
    }
}

impl Default for LooseStore {
    fn default() -> (s: LooseStore)
        ensures
            s.wf(),
            s.reliable(),
            s.root@ == "."@,
            s.contents() == Map::<Seq<char>, ObjectModel>::empty(),
            s.head is None,
    {
        LooseStore::new(".")
    }
}

impl ObjectStore for LooseStore {
    open spec fn wf(&self) -> bool {
        &&& self.objects.wf()
        &&& self.spoiled.wf()
        &&& self.objects.contents().dom().disjoint(self.spoiled@.dom())
    }

    open spec fn contents(&self) -> Map<Seq<char>, ObjectModel> {
        self.objects.contents().union_prefer_right(self.spoiled@.map_values(|b: bool| corrupt()))
    }

    open spec fn reliable(&self) -> bool {
        true
    }

    open spec fn deletes(&self) -> bool {
        true
    }

    open spec fn keeps_head(&self) -> bool {
        true
    }

    open spec fn kept_head(&self) -> Option<Seq<char>> {
        match self.head {
            Some(id) => Some(id@),
            None => None,
        }
    }

    proof fn finite(&self) {
        self.objects.finite();
        self.spoiled.facts();
        vstd::seq_lib::seq_to_set_is_finite(self.spoiled.names());
        assert(self.contents().dom() =~= self.objects.contents().dom().union(self.spoiled@.dom()));
    }

    fn put(&mut self, id: &ObjectId, object: &Object) -> (r: Result<(), StoreError>)
        ensures
            r is Ok,
            final(self).root == old(self).root,
    {
        let _there = self.spoiled.remove(id.as_str());
        let r = self.objects.put(id, object);
        proof {
            assert(self.contents() =~= old(self).contents().insert(id@, object@));
            assert(self.contents().remove(id@) =~= old(self).contents().remove(id@));
        }
        r
    }

    fn get(&self, id: &ObjectId) -> (r: Result<Object, StoreError>) {
        match self.objects.get(id) {
            Ok(o) => Ok(o),
            Err(e) => if self.spoiled.contains(id.as_str()) {
                Err(StoreError::Io(text::copy_str("corrupt object")))
            } else {
                Err(e)
            },
        }
    }

    fn contains(&self, id: &ObjectId) -> (yes: bool) {
        self.objects.contains(id) || self.spoiled.contains(id.as_str())
    }

    fn ids(&self) -> (list: Vec<ObjectId>) {
        let mut list = self.objects.ids();
        let ghost first = object::id_texts(list@);
        let mut i: usize = 0;
        proof {
            self.spoiled.facts();
            assert(first + self.spoiled.names().take(0) =~= first);
        }
        while i < self.spoiled.len()
            invariant
                self.wf(),
                i <= self.spoiled.names().len(),
                object::id_texts(list@) == first + self.spoiled.names().take(i as int),
            decreases self.spoiled.names().len() - i,
        {
            let e = self.spoiled.at(i);
            let ghost before = object::id_texts(list@);
            let ghost name = self.spoiled.names()[i as int];
            list.push(ObjectId(text::copy_str(e.0.as_str())));
            proof {
                assert(object::id_texts(list@) =~= before.push(name));
                assert(self.spoiled.names().take(i + 1) =~= self.spoiled.names().take(i as int).push(name));
                assert(before.push(name) =~= first + self.spoiled.names().take(i + 1));
            }
            i = i + 1;
        }
        proof {
            let rest = self.spoiled.names();
            self.spoiled.facts();
            assert(rest.take(i as int) =~= rest);
            vstd::seq_lib::seq_to_set_distributes_over_add(first, rest);
            assert(self.contents().dom() =~= first.to_set().union(rest.to_set()));
            let all = first + rest;
            assert forall|j: int, k: int| 0 <= j < all.len() && 0 <= k < all.len() && j != k implies all[j] != all[k] by {
                if j < first.len() && k >= first.len() {
                    assert(first.to_set().contains(all[j]) && rest.to_set().contains(rest[k - first.len()]));
                }
                if k < first.len() && j >= first.len() {
                    assert(first.to_set().contains(all[k]) && rest.to_set().contains(rest[j - first.len()]));
                }
            }
        }
        list
    }

    fn len(&self) -> (n: usize) {
        let list = self.ids();
        proof {
            object::id_texts(list@).unique_seq_to_set();
        }
        list.len()
    }

    fn delete(&mut self, id: &ObjectId) -> (r: Result<(), StoreError>)
        ensures
            r is Ok <==> old(self).contents().dom().contains(id@),
            final(self).root == old(self).root,
    {
        let lost = self.spoiled.remove(id.as_str());
        let r = self.objects.delete(id);
        proof {
            assert(self.contents() =~= old(self).contents().remove(id@));
            assert(self.contents().remove(id@) =~= old(self).contents().remove(id@));
            if !old(self).contents().dom().contains(id@) {
                assert(self.contents() =~= old(self).contents());
            }
        }
        if lost {
            Ok(())
        } else {
            r
        }
    }

    fn write_head(&mut self, id: &ObjectId) -> (r: Result<(), StoreError>)
        ensures
            r is Ok,
            final(self).root == old(self).root,
    {
        self.head = Some(id.copy());
        Ok(())
    }

    fn read_head(&self) -> (id: Option<ObjectId>) {
        match &self.head {
            Some(id) => Some(id.copy()),
            None => None,
        }
    }
}

/// The id in the text of a head's file.
pub open spec fn head_in(content: Seq<char>) -> Option<Seq<char>> {
    if scheme::is_sha1(text::trimmed(content)) {
        Some(text::trimmed(content))
    } else {
        None
    }
}

/// Reads the text of a head's file.
pub fn parse_head(content: &str) -> (id: Option<ObjectId>)
    ensures
        match id {
            Some(x) => head_in(content@) == Some(x@),
            None => head_in(content@) is None,
        },
{
    let chars = text::chars_of(content);
    let word = text::string_of(text::trim(chars.as_slice()));
    ObjectId::validated(word)
}

/// Different ids have different files.
pub proof fn paths_apart(root: Seq<char>, a: Seq<char>, b: Seq<char>)
    requires
        splits(a),
        splits(b),
        object_path(root, a) == object_path(root, b),
    ensures
        a == b,
{
    reveal_strlit("objects");
    reveal_strlit("/");
    let dir = inside(root, "objects"@);
    assert(dir.last() == 's');
    let n = dir.len() as int;
    let x = object_path(root, a);
    let y = object_path(root, b);
    assert(inside(dir, a.take(2)).last() == a[1]);
    assert(inside(dir, b.take(2)).last() == b[1]);
    assert(x.subrange(n + 1, n + 3) =~= a.take(2));
    assert(y.subrange(n + 1, n + 3) =~= b.take(2));
    assert(x.skip(n + 4) =~= a.skip(2));
    assert(y.skip(n + 4) =~= b.skip(2));
    assert(a =~= a.take(2) + a.skip(2));
    assert(b =~= b.take(2) + b.skip(2));
}

/// The head's file, written with an id, is read as that id.
pub proof fn head_round_trip(id: Seq<char>)
    requires
        scheme::is_sha1(id),
    ensures
        head_in(id) == Some(id),
{
    assert(!text::is_space(id[0]));
    assert(!text::is_space(id[39]));
    assert(text::trimmed(id) =~= id);
}

/// A file, written with an object, is read as that object, where the object's
/// lengths fit into four bytes and its ids are ids.
pub proof fn file_round_trip(o: ObjectModel)
    requires
        match o {
            ObjectModel::Blob(data) => data.len() <= u32::MAX,
            ObjectModel::Commit(c) => object::readable(c),
            ObjectModel::Spoiled(_) => false,
        },
    ensures
        held_in(object::object_bytes(o)) == Some(o),
{
    object::object_round_trip(o);
    held_is(object::object_bytes(o), o);
}

} // verus!
