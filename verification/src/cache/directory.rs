//! The extended cache: objects under their digests, tables under their names and
//! the manifest that seals them.

use vstd::prelude::*;

use crate::cache::ipc::CacheError;
use crate::cache::manifest::Manifest;
use crate::cache::manifest::ManifestModel;
use crate::cache::manifest::ARROW_CACHE_SCHEMA_VERSION;
use crate::cache::rows::Batch;
use crate::cache::rows::CellModel;
use crate::cache::schema::TableRow;
use crate::hllset::HLLSet;
use crate::lut::LutIndex;
use crate::lut::TokenSet;
use crate::table::TextTable;
use crate::cache::ipc;
use crate::cache::reading;
use crate::digest;
use crate::hllset;
use crate::text;
use crate::cache::rows;
use crate::cache::schema;
use crate::lut;
use crate::order;
use crate::cache::manifest;
use crate::table;

verus! {

/// How many counts an object of counts holds.
pub const TFVEC_ENTRIES: usize = 32768;

/// What went wrong, in words.
#[verifier::ext_equal]
pub enum Fault {
    Arrow,
    Bad(Seq<char>),
    Mismatch { what: Seq<char>, name: Seq<char>, expected: Seq<char>, found: Seq<char> },
    Missing { what: Seq<char>, name: Seq<char> },
    Version(u32),
    Empty,
    Multi,
}

impl View for CacheError {
    type V = Fault;

    open spec fn view(&self) -> Fault {
        match self {
            CacheError::Arrow(_) => Fault::Arrow,
            CacheError::BadManifest(w) => Fault::Bad(w@),
            CacheError::ShaMismatch { what, name, expected, found } => Fault::Mismatch {
                what: what@,
                name: name@,
                expected: expected@,
                found: found@,
            },
            CacheError::Missing { what, name } => Fault::Missing { what: what@, name: name@ },
            CacheError::SchemaVersion { found } => Fault::Version(*found),
            CacheError::EmptyIpc => Fault::Empty,
            CacheError::MultiBatchIpc => Fault::Multi,
        }
    }
}

impl CacheError {
    /// The words of an error.
    pub open spec fn words(&self) -> Seq<char> {
        match self {
            CacheError::Arrow(w) => "arrow: "@ + w@,
            CacheError::BadManifest(w) => "bad manifest: "@ + w@,
            CacheError::ShaMismatch { what, name, expected, found } => "sha mismatch for "@ + what@ + " "@ + name@
                + ": manifest "@ + expected@ + ", found "@ + found@,
            CacheError::Missing { what, name } => "missing "@ + what@ + ": "@ + name@,
            CacheError::SchemaVersion { found } => "schema version "@ + text::decimal(*found as nat) + " != soldered "@
                + text::decimal(ARROW_CACHE_SCHEMA_VERSION as nat),
            CacheError::EmptyIpc => "empty IPC stream"@,
            CacheError::MultiBatchIpc => "multi-batch IPC stream (expected one)"@,
        }
    }

    pub fn message(&self) -> (s: String)
        ensures
            s@ == self.words(),
    {
        match self {
            CacheError::Arrow(w) => text::concat2("arrow: ", w.as_str()),
            CacheError::BadManifest(w) => text::concat2("bad manifest: ", w.as_str()),
            CacheError::ShaMismatch { what, name, expected, found } => {
                let mut s = String::from_str("sha mismatch for ");
                s.append(what.as_str());
                s.append(" ");
                s.append(name.as_str());
                s.append(": manifest ");
                s.append(expected.as_str());
                s.append(", found ");
                s.append(found.as_str());
                s
            },
            CacheError::Missing { what, name } => {
                let mut s = text::concat3("missing ", what.as_str(), ": ");
                s.append(name.as_str());
                s
            },
            CacheError::SchemaVersion { found } => {
                let mut s = text::concat3("schema version ", text::decimal_string(*found as u64).as_str(), " != soldered ");
                s.append(text::decimal_string(ARROW_CACHE_SCHEMA_VERSION as u64).as_str());
                s
            },
            CacheError::EmptyIpc => text::copy_str("empty IPC stream"),
            CacheError::MultiBatchIpc => text::copy_str("multi-batch IPC stream (expected one)"),
        }
    }
}

/// The files of a cache's directory: objects by file name, tables by name, and the
/// manifest.
#[derive(Clone, Debug, PartialEq, Eq)]
pub struct ExtendedCache {
    pub place: String,
    pub objects: TextTable<Vec<u8>>,
    pub tables: TextTable<Vec<u8>>,
    pub manifest: Option<Vec<u8>>,
}

/// Files by name.
pub open spec fn files_view(m: Map<Seq<char>, Vec<u8>>) -> Map<Seq<char>, Seq<u8>> {
    m.map_values(|b: Vec<u8>| b@)
}

/// What a cache's directory holds.
#[verifier::ext_equal]
pub struct CacheModel {
    pub objects: Map<Seq<char>, Seq<u8>>,
    pub tables: Map<Seq<char>, Seq<u8>>,
    pub manifest: Option<Seq<u8>>,
}

impl View for ExtendedCache {
    type V = CacheModel;

    open spec fn view(&self) -> CacheModel {
        CacheModel {
            objects: files_view(self.objects@),
            tables: files_view(self.tables@),
            manifest: match self.manifest {
                Some(b) => Some(b@),
                None => None,
            },
        }
    }
}

/// Whether bytes, where there are any, are the file of a batch, or do not even end
/// as a file does.
pub open spec fn readable_file(files: Map<Seq<char>, Seq<u8>>, name: Seq<char>) -> bool {
    files.dom().contains(name) ==> reading::readable(files[name])
}

/// The bytes of a list of counts, each from the lowest byte up.
pub open spec fn tf_bytes(values: Seq<u64>) -> Seq<u8>
    decreases values.len(),
{
    if values.len() == 0 {
        Seq::empty()
    } else {
        tf_bytes(values.drop_last()) + vstd::bytes::spec_u64_to_le_bytes(values.last())
    }
}

/// The counts in bytes, without what is left over.
pub open spec fn tf_values(bytes: Seq<u8>) -> Seq<u64> {
    Seq::new(bytes.len() / 8, |i: int| vstd::bytes::spec_u64_from_le_bytes(bytes.subrange(8 * i, 8 * i + 8)))
}

/// Counts come back from their bytes.
pub proof fn tf_round_trip(values: Seq<u64>)
    ensures
        tf_values(tf_bytes(values)) == values,
        tf_bytes(values).len() == 8 * values.len(),
    decreases values.len(),
{
    vstd::bytes::lemma_auto_spec_u64_to_from_le_bytes();
    if values.len() > 0 {
        let head = values.drop_last();
        tf_round_trip(head);
        let all = tf_bytes(values);
        let last = vstd::bytes::spec_u64_to_le_bytes(values.last());
        assert(last.len() == 8);
        assert forall|i: int| 0 <= i < values.len() implies #[trigger] tf_values(all)[i] == values[i] by {
            if i < head.len() {
                assert(all.subrange(8 * i, 8 * i + 8) =~= tf_bytes(head).subrange(8 * i, 8 * i + 8));
                assert(tf_values(tf_bytes(head))[i] == head[i]);
            } else {
                assert(all.subrange(8 * i, 8 * i + 8) =~= last);
            }
        }
    }
    assert(tf_values(tf_bytes(values)) =~= values);
}

impl ExtendedCache {
    pub open spec fn wf(&self) -> bool {
        self.objects.wf() && self.tables.wf()
    }

    /// A cache without files.
    pub fn open(dir: &str) -> (c: ExtendedCache)
        ensures
            c.wf(),
            c.place@ == dir@,
            c@ == (CacheModel { objects: Map::empty(), tables: Map::empty(), manifest: None }),
    {
        let c = ExtendedCache {
            place: text::copy_str(dir),
            objects: TextTable::new(),
            tables: TextTable::new(),
            manifest: None,
        };
        proof {
            assert(c@ =~= (CacheModel { objects: Map::empty(), tables: Map::empty(), manifest: None }));
        }
        c
    }

    /// Where the cache is.
    pub fn dir(&self) -> (dir: &str)
        ensures
            dir@ == self.place@,
    {
        self.place.as_str()
    }

    /// Keeps the file of an object.
    fn keep_object(&mut self, file: String, bytes: Vec<u8>)
        requires
            old(self).wf(),
        ensures
            final(self).wf(),
            final(self).place == old(self).place,
            final(self)@ == (CacheModel { objects: old(self)@.objects.insert(file@, bytes@), ..old(self)@ }),
    {
        let ghost before = self@;
        self.objects.insert(file, bytes);
        proof {
            assert(self@.objects =~= before.objects.insert(file@, bytes@));
            assert(self@.tables =~= before.tables);
        }
    }

    /// Keeps the file of a table.
    fn keep_table(&mut self, name: &str, bytes: Vec<u8>)
        requires
            old(self).wf(),
        ensures
            final(self).wf(),
            final(self).place == old(self).place,
            final(self)@ == (CacheModel { tables: old(self)@.tables.insert(name@, bytes@), ..old(self)@ }),
    {
        let ghost before = self@;
        self.tables.insert(text::copy_str(name), bytes);
        proof {
            assert(self@.tables =~= before.tables.insert(name@, bytes@));
            assert(self@.objects =~= before.objects);
        }
    }

    /// Keeps a set under its digest, which is returned.
    pub fn put_hllset(&mut self, set: &HLLSet) -> (sha1: String)
        requires
            old(self).wf(),
        ensures
            final(self).wf(),
            final(self).place == old(self).place,
            sha1@ == digest::sha1_text(hllset::set_bytes(set@)),
            final(self)@ == (CacheModel {
                objects: old(self)@.objects.insert(sha1@ + ".hllset"@, hllset::set_bytes(set@)),
                ..old(self)@
            }),
    {
        let bytes = set.to_bytes();
        let sha1 = digest::sha1_hex(bytes.as_slice());
        let file = text::concat2(sha1.as_str(), ".hllset");
        self.keep_object(file, bytes);
        sha1
    }

    /// The set under a digest, where there is a file and it holds one.
    pub fn get_hllset(&self, sha1: &str) -> (set: Option<HLLSet>)
        requires
            self.wf(),
        ensures
            set is Some <==> self@.objects.dom().contains(sha1@ + ".hllset"@) && hllset::valid_set_bytes(
                self@.objects[sha1@ + ".hllset"@],
            ),
            set is Some ==> set->0@ == hllset::set_in(self@.objects[sha1@ + ".hllset"@]) && hllset::set_bytes(set->0@)
                == self@.objects[sha1@ + ".hllset"@],
    {
        let file = text::concat2(sha1, ".hllset");
        match self.objects.get(file.as_str()) {
            Some(bytes) => HLLSet::from_bytes(bytes.as_slice()),
            None => None,
        }
    }

    /// Keeps counts, each given by its 64 bits, under their digest, which is
    /// returned.
    pub fn put_tfvec(&mut self, values: &[u64]) -> (sha1: String)
        requires
            old(self).wf(),
            values@.len() == TFVEC_ENTRIES,
        ensures
            final(self).wf(),
            final(self).place == old(self).place,
            sha1@ == digest::sha1_text(tf_bytes(values@)),
            final(self)@ == (CacheModel {
                objects: old(self)@.objects.insert(sha1@ + ".tfvec"@, tf_bytes(values@)),
                ..old(self)@
            }),
    {
        let mut bytes: Vec<u8> = Vec::new();
        let mut i: usize = 0;
        while i < values.len()
            invariant
                i <= values@.len(),
                bytes@ == tf_bytes(values@.take(i as int)),
            decreases values.len() - i,
        {
            let mut word = vstd::bytes::u64_to_le_bytes(values[i]);
            proof {
                assert(values@.take(i as int + 1).drop_last() =~= values@.take(i as int));
                assert(values@.take(i as int + 1).last() == values@[i as int]);
            }
            bytes.append(&mut word);
            i = i + 1;
        }
        proof {
            assert(values@.take(i as int) =~= values@);
        }
        let sha1 = digest::sha1_hex(bytes.as_slice());
        let file = text::concat2(sha1.as_str(), ".tfvec");
        self.keep_object(file, bytes);
        sha1
    }

    /// The counts under a digest, where there is a file.
    pub fn get_tfvec(&self, sha1: &str) -> (values: Option<Vec<u64>>)
        requires
            self.wf(),
        ensures
            values is Some <==> self@.objects.dom().contains(sha1@ + ".tfvec"@),
            values is Some ==> values->0@ == tf_values(self@.objects[sha1@ + ".tfvec"@]),
    {
        let file = text::concat2(sha1, ".tfvec");
        match self.objects.get(file.as_str()) {
            Some(bytes) => {
                let n = bytes.len() / 8;
                let mut values: Vec<u64> = Vec::new();
                let mut i: usize = 0;
                while i < n
                    invariant
                        i <= n,
                        n == bytes@.len() / 8,
                        bytes@.len() <= usize::MAX,
                        values@.len() == i,
                        forall|j: int| 0 <= j < i ==> #[trigger] values@[j] == tf_values(bytes@)[j],
                    decreases n - i,
                {
                    let word = vstd::slice::slice_subrange(bytes.as_slice(), 8 * i, 8 * i + 8);
                    values.push(vstd::bytes::u64_from_le_bytes(word));
                    i = i + 1;
                }
                proof {
                    assert(values@ =~= tf_values(bytes@));
                }
                Some(values)
            },
            None => None,
        }
    }

    /// Writes the file of a table and returns its digest.
    pub fn write_table(&mut self, name: &str, batch: &Batch) -> (r: Result<String, CacheError>)
        requires
            old(self).wf(),
            batch.wf(),
        ensures
            final(self).wf(),
            final(self).place == old(self).place,
            r is Ok <==> ipc::writable(*batch),
            r is Ok ==> exists|lowest_first: bool|
                #[trigger] table_written(old(self)@, final(self)@, name@, r->Ok_0@, *batch, lowest_first),
            r is Err ==> r->Err_0@ == Fault::Arrow && final(self)@ == old(self)@,
    {
        match ipc::to_ipc(batch) {
            Ok(bytes) => {
                let sha1 = digest::sha1_hex(bytes.as_slice());
                let ghost l = choose|l: bool| bytes@ == #[trigger] ipc::batch_ipc(*batch, l);
                let ghost before = self@;
                self.keep_table(name, bytes);
                let r: Result<String, CacheError> = Ok(sha1);
                assert(table_written(before, self@, name@, r->Ok_0@, *batch, l));
                r
            },
            Err(e) => Err(e),
        }
    }

    /// The batch of a table, where there is a file and Arrow reads it.
    pub fn read_table(&self, name: &str) -> (r: Result<Option<Batch>, CacheError>)
        requires
            self.wf(),
            readable_file(self@.tables, name@),
        ensures
            !self@.tables.dom().contains(name@) ==> r matches Ok(None),
            self@.tables.dom().contains(name@) && !reading::marked(self@.tables[name@]) ==> r is Err,
            self@.tables.dom().contains(name@) ==> match r {
                Ok(Some(out)) => out.wf() && forall|b: Batch, lowest_first: bool|
                    #[trigger] reading::written_as(self@.tables[name@], b, lowest_first) ==> reading::same_batch(out, b),
                Ok(None) => false,
                Err(e) => e@ == Fault::Arrow,
            },
    {
        match self.tables.get(name) {
            Some(bytes) => match reading::from_ipc(bytes.as_slice()) {
                Ok(b) => Ok(Some(b)),
                Err(e) => Err(e),
            },
            None => Ok(None),
        }
    }
}

/// The pairs of a bit and a token in the rows of a batch.
pub open spec fn lut_pairs(b: Batch) -> Set<(u32, Seq<u8>)> {
    Set::new(
        |p: (u32, Seq<u8>)|
            exists|i: int|
                0 <= i < b.spec_rows().len() && #[trigger] b.spec_rows()[i] == seq![
                    CellModel::Narrow(p.0),
                    CellModel::Binary(p.1),
                ],
    )
}

/// Rows as pairs of a bit and a token.
pub open spec fn pair_list(rows: Seq<(u32, Vec<u8>)>) -> Seq<(u32, Seq<u8>)> {
    rows.map_values(|r: (u32, Vec<u8>)| (r.0, r.1@))
}

/// Whether a table, where there is one, can be read and holds bits and tokens, or
/// does not even end as a file does.
pub open spec fn lut_file(files: Map<Seq<char>, Seq<u8>>, name: Seq<char>) -> bool {
    files.dom().contains(name) && reading::marked(files[name]) ==> exists|b: Batch, lowest_first: bool|
        #[trigger] reading::written_as(files[name], b, lowest_first) && b.kinds() == <(u32, Vec<u8>)>::spec_kinds()
}

/// Whether a table holds pairs; where there is no table it holds none.
pub open spec fn table_pairs(files: Map<Seq<char>, Seq<u8>>, name: Seq<char>, pairs: Set<(u32, Seq<u8>)>) -> bool {
    if files.dom().contains(name) {
        exists|b: Batch, lowest_first: bool|
            #[trigger] reading::written_as(files[name], b, lowest_first) && b.kinds() == <(u32, Vec<u8>)>::spec_kinds() && lut_pairs(b)
                == pairs
    } else {
        pairs == Set::<(u32, Seq<u8>)>::empty()
    }
}

/// Whether the file of a table was written, with nothing else changed.
pub open spec fn table_written(
    before: CacheModel,
    after: CacheModel,
    name: Seq<char>,
    sha1: Seq<char>,
    b: Batch,
    lowest_first: bool,
) -> bool {
    &&& ipc::writable(b)
    &&& sha1 == digest::sha1_text(ipc::batch_ipc(b, lowest_first))
    &&& after == (CacheModel { tables: before.tables.insert(name, ipc::batch_ipc(b, lowest_first)), ..before })
}

/// Whether pairs are among rows.
fn row_known(rows: &Vec<(u32, Vec<u8>)>, bit: u32, token: &[u8]) -> (yes: bool)
    ensures
        yes == pair_list(rows@).contains((bit, token@)),
{
    let mut i: usize = 0;
    while i < rows.len()
        invariant
            i <= rows@.len(),
            forall|j: int| 0 <= j < i ==> #[trigger] pair_list(rows@)[j] != (bit, token@),
        decreases rows.len() - i,
    {
        if rows[i].0 == bit && order::bytes_equal(rows[i].1.as_slice(), token) {
            assert(pair_list(rows@)[i as int] == (bit, token@));
            return true;
        }
        i = i + 1;
    }
    false
}

/// Appends a pair, unless it is there.
fn add_row(rows: &mut Vec<(u32, Vec<u8>)>, bit: u32, token: &[u8])
    requires
        pair_list(old(rows)@).no_duplicates(),
    ensures
        pair_list(final(rows)@).no_duplicates(),
        pair_list(final(rows)@).to_set() == pair_list(old(rows)@).to_set().insert((bit, token@)),
{
    let ghost before = pair_list(rows@);
    if !row_known(rows, bit, token) {
        rows.push((bit, lut::copy_bytes(token)));
        proof {
            assert(pair_list(rows@) =~= before.push((bit, token@)));
            before.lemma_push_to_set_commute((bit, token@));
        }
    } else {
        assert(before.to_set() =~= before.to_set().insert((bit, token@)));
    }
}

/// The pairs in rows that were read from a batch.
proof fn pairs_of_read_rows(rows: Seq<(u32, Vec<u8>)>, b: Batch)
    requires
        schema::cells_of_rows(rows) == b.spec_rows(),
    ensures
        pair_list(rows).to_set() == lut_pairs(b),
{
    assert forall|p: (u32, Seq<u8>)| pair_list(rows).to_set().contains(p) <==> lut_pairs(b).contains(p) by {
        if pair_list(rows).contains(p) {
            let i = choose|i: int| 0 <= i < rows.len() && pair_list(rows)[i] == p;
            assert(b.spec_rows()[i] == rows[i].spec_cells());
            assert(b.spec_rows()[i] =~= seq![CellModel::Narrow(p.0), CellModel::Binary(p.1)]);
        }
        if lut_pairs(b).contains(p) {
            let i = choose|i: int|
                0 <= i < b.spec_rows().len() && #[trigger] b.spec_rows()[i] == seq![
                    CellModel::Narrow(p.0),
                    CellModel::Binary(p.1),
                ];
            assert(schema::cells_of_rows(rows)[i] == rows[i].spec_cells());
            let cells = seq![CellModel::Narrow(p.0), CellModel::Binary(p.1)];
            assert(rows[i].spec_cells()[0] == cells[0]);
            assert(rows[i].spec_cells()[1] == cells[1]);
            assert(pair_list(rows)[i] == p);
        }
    }
    assert(pair_list(rows).to_set() =~= lut_pairs(b));
}

/// A batch of rows holds their pairs.
pub proof fn pairs_of_batch(rows: Seq<(u32, Vec<u8>)>, b: Batch)
    requires
        schema::batch_of(b, rows),
    ensures
        lut_pairs(b) == pair_list(rows).to_set(),
{
    let cells = schema::cells_of_rows(rows);
    rows::row_rank_faithful();
    order::rank_total(rows::row_rank());
    cells.lemma_sort_by_ensures(order::rank_leq(rows::row_rank()));
    cells.to_multiset_ensures();
    b.spec_rows().to_multiset_ensures();
    assert forall|p: (u32, Seq<u8>)| pair_list(rows).to_set().contains(p) <==> lut_pairs(b).contains(p) by {
        let want = seq![CellModel::Narrow(p.0), CellModel::Binary(p.1)];
        assert(b.spec_rows().contains(want) <==> b.spec_rows().to_multiset().count(want) > 0);
        assert(cells.contains(want) <==> cells.to_multiset().count(want) > 0);
        if pair_list(rows).contains(p) {
            let i = choose|i: int| 0 <= i < rows.len() && pair_list(rows)[i] == p;
            assert(cells[i] =~= want);
            assert(cells.contains(want));
            let j = choose|j: int| 0 <= j < b.spec_rows().len() && b.spec_rows()[j] == want;
            assert(b.spec_rows()[j] == want);
        }
        if lut_pairs(b).contains(p) {
            let j = choose|j: int| 0 <= j < b.spec_rows().len() && #[trigger] b.spec_rows()[j] == want;
            assert(b.spec_rows().contains(want));
            let i = choose|i: int| 0 <= i < cells.len() && cells[i] == want;
            assert(cells[i] == rows[i].spec_cells());
            assert(rows[i].spec_cells()[0] == want[0]);
            assert(rows[i].spec_cells()[1] == want[1]);
            assert(pair_list(rows)[i] == p);
        }
    }
    assert(lut_pairs(b) =~= pair_list(rows).to_set());
}

/// Appends the pairs of an index, unless they are there.
fn add_index(rows: &mut Vec<(u32, Vec<u8>)>, index: &LutIndex)
    requires
        pair_list(old(rows)@).no_duplicates(),
    ensures
        pair_list(final(rows)@).no_duplicates(),
        pair_list(final(rows)@).to_set() == pair_list(old(rows)@).to_set().union(index@),
{
    let ghost start = pair_list(rows@).to_set();
    let items = index.rows();
    let mut i: usize = 0;
    while i < items.len()
        invariant
            i <= items@.len(),
            pair_list(rows@).no_duplicates(),
            forall|p: (u32, Seq<u8>)|
                #[trigger] pair_list(rows@).to_set().contains(p) <==> start.contains(p) || lut::row_at(
                    items@.take(i as int),
                    p.0,
                    p.1,
                ),
        decreases items.len() - i,
    {
        let ghost before = pair_list(rows@).to_set();
        let ghost x = (items@[i as int].bit, items@[i as int].token@);
        add_row(rows, items[i].bit, items[i].token.as_slice());
        proof {
            assert forall|p: (u32, Seq<u8>)| #[trigger] pair_list(rows@).to_set().contains(p) <==> start.contains(p) || lut::row_at(
                items@.take(i as int + 1),
                p.0,
                p.1,
            ) by {
                lut::row_at_push(items@, i as int, p.0, p.1);
                assert(before.contains(p) || p == x <==> pair_list(rows@).to_set().contains(p));
            }
        }
        i = i + 1;
    }
    proof {
        assert(items@.take(i as int) =~= items@);
        assert forall|p: (u32, Seq<u8>)| pair_list(rows@).to_set().contains(p) <==> start.union(index@).contains(p) by {
            assert(lut::row_at(items@, p.0, p.1) == lut::row_at(index.entries@, p.0, p.1));
            assert(index@.contains(p) <==> lut::row_at(index.entries@, p.0, p.1));
        }
        assert(pair_list(rows@).to_set() =~= start.union(index@));
    }
}

/// The rows of a table, each once.
fn distinct_rows(list: &Vec<(u32, Vec<u8>)>) -> (rows: Vec<(u32, Vec<u8>)>)
    ensures
        pair_list(rows@).no_duplicates(),
        pair_list(rows@).to_set() == pair_list(list@).to_set(),
{
    let mut rows: Vec<(u32, Vec<u8>)> = Vec::new();
    proof {
        assert(pair_list(rows@) =~= Seq::empty());
        assert(pair_list(list@).take(0) =~= Seq::empty());
    }
    let mut i: usize = 0;
    while i < list.len()
        invariant
            i <= list@.len(),
            pair_list(rows@).no_duplicates(),
            pair_list(rows@).to_set() == pair_list(list@).take(i as int).to_set(),
        decreases list.len() - i,
    {
        add_row(&mut rows, list[i].0, list[i].1.as_slice());
        proof {
            let all = pair_list(list@);
            assert(all.take(i as int + 1) =~= all.take(i as int).push(all[i as int]));
            all.take(i as int).lemma_push_to_set_commute(all[i as int]);
        }
        i = i + 1;
    }
    proof {
        assert(pair_list(list@).take(i as int) =~= pair_list(list@));
    }
    rows
}

/// The tokens of rows whose bits are in a set.
pub fn select_rows(hllset: &HLLSet, rows: &Vec<(u32, Vec<u8>)>) -> (out: TokenSet)
    ensures
        out.wf(),
        out@ == lut::selected(hllset@, pair_list(rows@).to_set()),
{
    let ghost all = pair_list(rows@);
    let mut out = TokenSet::new();
    let mut i: usize = 0;
    proof {
        assert(out@ =~= lut::selected(hllset@, all.take(0).to_set()));
    }
    while i < rows.len()
        invariant
            i <= rows@.len(),
            out.wf(),
            all == pair_list(rows@),
            out@ == lut::selected(hllset@, all.take(i as int).to_set()),
        decreases rows.len() - i,
    {
        let ghost had = out@;
        if hllset.contains(rows[i].0) {
            out.insert(lut::copy_bytes(rows[i].1.as_slice()));
        }
        proof {
            let x = all[i as int];
            assert(all.take(i as int + 1) =~= all.take(i as int).push(x));
            all.take(i as int).lemma_push_to_set_commute(x);
            let more = all.take(i as int + 1).to_set();
            let less = all.take(i as int).to_set();
            assert(more == less.insert(x));
            assert forall|t: Seq<u8>| out@.contains(t) <==> lut::selected(hllset@, more).contains(t) by {
                if had.contains(t) {
                    let b = choose|b: u32| #[trigger] hllset@.contains(b) && less.contains((b, t));
                    assert(more.contains((b, t)));
                }
                if lut::selected(hllset@, more).contains(t) {
                    let b = choose|b: u32| #[trigger] hllset@.contains(b) && more.contains((b, t));
                    if (b, t) != x {
                        assert(less.contains((b, t)));
                    }
                }
                if hllset@.contains(x.0) && t == x.1 {
                    assert(more.contains((x.0, t)));
                }
            }
            assert(out@ =~= lut::selected(hllset@, more));
        }
        i = i + 1;
    }
    proof {
        assert(all.take(i as int) =~= all);
    }
    out
}

impl ExtendedCache {
    /// The rows of a table of tokens; none where there is no table.
    fn table_rows(&self, name: &str) -> (r: Result<Option<Vec<(u32, Vec<u8>)>>, CacheError>)
        requires
            self.wf(),
            lut_file(self@.tables, name@),
        ensures
            match r {
                Ok(Some(rows)) => self@.tables.dom().contains(name@) && table_pairs(
                    self@.tables,
                    name@,
                    pair_list(rows@).to_set(),
                ),
                Ok(None) => !self@.tables.dom().contains(name@),
                Err(e) => self@.tables.dom().contains(name@) && e@ == Fault::Arrow,
            },
    {
        match self.read_table(name) {
            Ok(Some(batch)) => {
                let ghost files = self@.tables;
                let ghost (b, l) = choose|b: Batch, l: bool|
                    #[trigger] reading::written_as(files[name@], b, l) && b.kinds() == <(u32, Vec<u8>)>::spec_kinds();
                assert(reading::same_batch(batch, b));
                let rows = schema::lut_rows(&batch);
                proof {
                    pairs_of_read_rows(rows@, batch);
                    assert(lut_pairs(b) =~= lut_pairs(batch));
                }
                Ok(Some(rows))
            },
            Ok(None) => Ok(None),
            Err(e) => Err(e),
        }
    }

    /// Writes a table of tokens that holds the pairs of some rows and of an index,
    /// each once, and returns the digest of the table's new file.
    pub fn write_merged(&mut self, name: &str, held: &Vec<(u32, Vec<u8>)>, index: &LutIndex) -> (r: Result<
        String,
        CacheError,
    >)
        requires
            old(self).wf(),
        ensures
            final(self).wf(),
            final(self).place == old(self).place,
            r is Err ==> r->Err_0@ == Fault::Arrow && final(self)@ == old(self)@,
            exists|b: Batch, rows: Seq<(u32, Vec<u8>)>|
                #[trigger] schema::batch_of(b, rows) && pair_list(rows).no_duplicates() && pair_list(rows).to_set() == pair_list(
                    held@,
                ).to_set().union(index@) && (r is Ok <==> ipc::writable(b)) && (r is Ok ==> exists|lowest_first: bool|
                    #[trigger] table_written(old(self)@, final(self)@, name@, r->Ok_0@, b, lowest_first)),
    {
        let ghost before = self@;
        let mut rows = distinct_rows(held);
        add_index(&mut rows, index);
        let b = schema::lut_batch(&rows);
        let r = self.write_table(name, &b);
        assert(schema::batch_of(b, rows@));
        r
    }

    /// Adds the pairs of an index to a table of tokens, and returns the digest of
    /// the table's new file. What the table held stays, and nothing is there twice.
    /// Where there is no table yet, it fails only on an index too large for a file.
    pub fn merge_lut(&mut self, name: &str, index: &LutIndex) -> (r: Result<String, CacheError>)
        requires
            old(self).wf(),
            lut_file(old(self)@.tables, name@),
        ensures
            final(self).wf(),
            final(self).place == old(self).place,
            r is Err ==> r->Err_0@ == Fault::Arrow && final(self)@ == old(self)@,
            !old(self)@.tables.dom().contains(name@) ==> exists|b: Batch, rows: Seq<(u32, Vec<u8>)>|
                #[trigger] schema::batch_of(b, rows) && pair_list(rows).no_duplicates() && pair_list(rows).to_set() == index@
                    && (r is Ok <==> ipc::writable(b)),
            r is Ok ==> exists|held: Set<(u32, Seq<u8>)>|
                #[trigger] table_pairs(old(self)@.tables, name@, held) && table_pairs(
                    final(self)@.tables,
                    name@,
                    held.union(index@),
                ),
            r is Ok ==> exists|rows: Seq<(u32, Vec<u8>)>, b: Batch, lowest_first: bool|
                #[trigger] schema::batch_of(b, rows) && pair_list(rows).no_duplicates() && #[trigger] table_written(
                    old(self)@,
                    final(self)@,
                    name@,
                    r->Ok_0@,
                    b,
                    lowest_first,
                ),
    {
        let mut held: Vec<(u32, Vec<u8>)> = Vec::new();
        let ghost before = self@;
        proof {
            assert(pair_list(held@) =~= Seq::empty());
            assert(pair_list(held@).to_set() =~= Set::empty());
        }
        match self.table_rows(name) {
            Ok(Some(list)) => {
                held = list;
            },
            Ok(None) => {},
            Err(e) => {
                return Err(e);
            },
        }
        let ghost pairs = pair_list(held@).to_set();
        assert(table_pairs(before.tables, name@, pairs));
        let r = self.write_merged(name, &held, index);
        proof {
            let (b, rows) = choose|b: Batch, rows: Seq<(u32, Vec<u8>)>|
                #[trigger] schema::batch_of(b, rows) && pair_list(rows).no_duplicates() && pair_list(rows).to_set() == pairs.union(
                    index@,
                ) && (r is Ok <==> ipc::writable(b)) && (r is Ok ==> exists|lowest_first: bool|
                    #[trigger] table_written(before, self@, name@, r->Ok_0@, b, lowest_first));
            if !before.tables.dom().contains(name@) {
                assert(pairs =~= Set::empty());
                assert(pairs.union(index@) =~= index@);
            }
            if r is Ok {
                let l = choose|l: bool| #[trigger] table_written(before, self@, name@, r->Ok_0@, b, l);
                pairs_of_batch(rows, b);
                assert(reading::written_as(self@.tables[name@], b, l));
                assert(table_pairs(self@.tables, name@, pairs.union(index@)));
            }
        }
        r
    }

    /// The tokens of a table whose bits are in a set.
    pub fn materialize_lut(&self, hllset: &HLLSet, table: &str) -> (r: Result<TokenSet, CacheError>)
        requires
            self.wf(),
            lut_file(self@.tables, table@),
        ensures
            match r {
                Ok(out) => out.wf() && self@.tables.dom().contains(table@) && exists|pairs: Set<(u32, Seq<u8>)>|
                    #[trigger] table_pairs(self@.tables, table@, pairs) && out@ == lut::selected(hllset@, pairs),
                Err(e) => if self@.tables.dom().contains(table@) {
                    e@ == Fault::Arrow
                } else {
                    e@ == (Fault::Missing { what: "table"@, name: table@ })
                },
            },
    {
        let rows = match self.table_rows(table) {
            Ok(Some(rows)) => rows,
            Ok(None) => {
                return Err(CacheError::Missing { what: text::copy_str("table"), name: text::copy_str(table) });
            },
            Err(e) => {
                return Err(e);
            },
        };
        Ok(select_rows(hllset, &rows))
    }
}

/// What is wrong with a file that should have a digest, if anything.
pub open spec fn file_fault(
    files: Map<Seq<char>, Seq<u8>>,
    file: Seq<char>,
    what: Seq<char>,
    name: Seq<char>,
    sha1: Seq<char>,
) -> Option<Fault> {
    if !files.dom().contains(file) {
        Some(Fault::Missing { what, name })
    } else if digest::sha1_text(files[file]) != sha1 {
        Some(Fault::Mismatch { what, name, expected: sha1, found: digest::sha1_text(files[file]) })
    } else {
        None
    }
}

/// Whether a name is that of an object that is a set.
pub open spec fn set_name(name: Seq<char>) -> bool {
    name == "G1"@ || name == "G2"@ || name == "G3"@
}

/// What is wrong with an object, if anything.
pub open spec fn object_fault(c: CacheModel, name: Seq<char>, sha1: Seq<char>) -> Option<Fault> {
    if set_name(name) {
        file_fault(c.objects, sha1 + ".hllset"@, "object"@, name, sha1)
    } else if name == "tf_vec"@ {
        file_fault(c.objects, sha1 + ".tfvec"@, "object"@, name, sha1)
    } else {
        Some(Fault::Bad("unknown object logical name "@ + name))
    }
}

/// The first fault of a list.
pub open spec fn first_fault(list: Seq<Option<Fault>>) -> Option<Fault>
    decreases list.len(),
{
    if list.len() == 0 {
        None
    } else {
        match first_fault(list.drop_last()) {
            Some(f) => Some(f),
            None => list.last(),
        }
    }
}

/// What is wrong with the objects of a manifest, in the order of their names.
pub open spec fn object_faults(c: CacheModel, m: ManifestModel) -> Seq<Option<Fault>> {
    table::listed(m.objects).map_values(|n: Seq<char>| object_fault(c, n, m.objects[n]))
}

/// What is wrong with the tables of a manifest, in the order of their names.
pub open spec fn table_faults(c: CacheModel, m: ManifestModel) -> Seq<Option<Fault>> {
    table::listed(m.tables).map_values(|n: Seq<char>| file_fault(c.tables, n, "table"@, n, m.tables[n]))
}

/// The first thing that is wrong with a manifest, if anything: its version, an
/// object, a table.
pub open spec fn manifest_fault(c: CacheModel, m: ManifestModel) -> Option<Fault> {
    if m.version != ARROW_CACHE_SCHEMA_VERSION {
        Some(Fault::Version(m.version))
    } else {
        match first_fault(object_faults(c, m)) {
            Some(f) => Some(f),
            None => first_fault(table_faults(c, m)),
        }
    }
}

/// Where the first faults hold one, so does the whole.
proof fn first_stays(list: Seq<Option<Fault>>, n: int)
    requires
        0 <= n <= list.len(),
        first_fault(list.take(n)) is Some,
    ensures
        first_fault(list) == first_fault(list.take(n)),
    decreases list.len() - n,
{
    if n == list.len() {
        assert(list.take(n) =~= list);
    } else {
        assert(list.take(n + 1).drop_last() =~= list.take(n));
        first_stays(list, n + 1);
    }
}

/// Without a first fault there is none.
pub proof fn no_fault(list: Seq<Option<Fault>>)
    ensures
        first_fault(list) is None <==> forall|i: int| 0 <= i < list.len() ==> #[trigger] list[i] is None,
    decreases list.len(),
{
    if list.len() > 0 {
        no_fault(list.drop_last());
        assert forall|i: int| 0 <= i < list.drop_last().len() implies list.drop_last()[i] == #[trigger] list[i] by {}
        if forall|i: int| 0 <= i < list.len() ==> #[trigger] list[i] is None {
            assert forall|i: int| 0 <= i < list.drop_last().len() implies #[trigger] list.drop_last()[i] is None by {
                assert(list[i] is None);
            }
            assert(list[list.len() - 1] is None);
        }
        if first_fault(list) is None {
            assert forall|i: int| 0 <= i < list.len() implies #[trigger] list[i] is None by {
                if i < list.len() - 1 {
                    assert(list.drop_last()[i] is None);
                }
            }
        }
    }
}

/// A copy of a table of texts.
fn copy_table(t: &TextTable<String>) -> (copy: TextTable<String>)
    requires
        t.wf(),
    ensures
        copy.wf(),
        table::text_view(copy@) == table::text_view(t@),
{
    let mut copy: TextTable<String> = TextTable::new();
    let n = t.len();
    proof {
        t.facts();
    }
    let mut i: usize = 0;
    while i < n
        invariant
            i <= n,
            n == t.names().len(),
            t.wf(),
            copy.wf(),
            copy@.dom() == t.names().take(i as int).to_set(),
            forall|x: Seq<char>| #[trigger] copy@.dom().contains(x) ==> t@.dom().contains(x) && copy@[x]@ == t@[x]@,
            t.names().to_set() == t@.dom(),
        decreases n - i,
    {
        let e = t.at(i);
        let name = text::copy_str(e.0.as_str());
        let value = text::copy_str(e.1.as_str());
        proof {
            let names = t.names();
            assert(names.take(i as int + 1) =~= names.take(i as int).push(names[i as int]));
            names.take(i as int).lemma_push_to_set_commute(names[i as int]);
            assert(names.contains(names[i as int]));
            assert(names.to_set().contains(names[i as int]));
        }
        copy.insert(name, value);
        i = i + 1;
    }
    proof {
        assert(t.names().take(i as int) =~= t.names());
        assert(table::text_view(copy@) =~= table::text_view(t@));
    }
    copy
}

impl Manifest {
    /// A copy of the manifest.
    pub fn copy(&self) -> (m: Manifest)
        requires
            self.wf(),
        ensures
            m.wf(),
            m@ == self@,
    {
        Manifest {
            schema_version: self.schema_version,
            tip: text::copy_str(self.tip.as_str()),
            created_at: text::copy_str(self.created_at.as_str()),
            objects: copy_table(&self.objects),
            tables: copy_table(&self.tables),
        }
    }
}

/// Checks a file against the digest that it should have.
fn check_file(files: &TextTable<Vec<u8>>, file: &str, what: &str, name: &str, sha1: &str) -> (r: Result<(), CacheError>)
    requires
        files.wf(),
    ensures
        match r {
            Ok(_) => file_fault(files_view(files@), file@, what@, name@, sha1@) is None,
            Err(e) => file_fault(files_view(files@), file@, what@, name@, sha1@) == Some(e@),
        },
{
    match files.get(file) {
        Some(bytes) => {
            let found = digest::sha1_hex(bytes.as_slice());
            if text::same_text(found.as_str(), sha1) {
                Ok(())
            } else {
                Err(
                    CacheError::ShaMismatch {
                        what: text::copy_str(what),
                        name: text::copy_str(name),
                        expected: text::copy_str(sha1),
                        found,
                    },
                )
            }
        },
        None => Err(CacheError::Missing { what: text::copy_str(what), name: text::copy_str(name) }),
    }
}

/// Whether a name is that of an object that is a set.
fn is_set_name(name: &str) -> (yes: bool)
    ensures
        yes == set_name(name@),
{
    text::same_text(name, "G1") || text::same_text(name, "G2") || text::same_text(name, "G3")
}

impl ExtendedCache {
    /// Seals a cache: writes the manifest, and returns it with the key of the cache.
    pub fn seal(&mut self, manifest: &Manifest) -> (r: Result<(Manifest, String), CacheError>)
        requires
            old(self).wf(),
            manifest.wf(),
        ensures
            final(self).wf(),
            final(self).place == old(self).place,
            r is Err ==> final(self)@ == old(self)@ && r->Err_0@ == (if manifest.schema_version
                != ARROW_CACHE_SCHEMA_VERSION {
                Fault::Version(manifest.schema_version)
            } else {
                Fault::Arrow
            }),
            manifest.schema_version != ARROW_CACHE_SCHEMA_VERSION ==> r is Err,
            manifest.schema_version == ARROW_CACHE_SCHEMA_VERSION ==> exists|b: Batch, rows: Seq<(String, String)>|
                #[trigger] manifest::manifest_batch(manifest@, b, rows) && (r is Ok <==> ipc::writable(b)),
            r is Ok ==> r->Ok_0.0.wf() && r->Ok_0.0@ == manifest@ && exists|bytes: Seq<u8>|
                #[trigger] manifest::manifest_file(manifest@, bytes) && r->Ok_0.1@ == "c:"@ + digest::sha1_text(bytes) && final(self)@ == (
                CacheModel { manifest: Some(bytes), ..old(self)@ }),
    {
        if manifest.schema_version != ARROW_CACHE_SCHEMA_VERSION {
            return Err(CacheError::SchemaVersion { found: manifest.schema_version });
        }
        let bytes = match manifest.to_ipc() {
            Ok(bytes) => bytes,
            Err(e) => {
                return Err(e);
            },
        };
        let ghost file = bytes@;
        let ghost before = self@;
        let key = manifest::content_key(bytes.as_slice());
        self.manifest = Some(bytes);
        let copy = manifest.copy();
        proof {
            assert(self@ =~= (CacheModel { manifest: Some(file), ..before }));
        }
        let r: Result<(Manifest, String), CacheError> = Ok((copy, key));
        assert(manifest::manifest_file(manifest@, file));
        r
    }

    /// The sealed manifest, where there is one and Arrow reads it.
    pub fn open_manifest(&self) -> (r: Result<Option<Manifest>, CacheError>)
        requires
            self.wf(),
            self@.manifest matches Some(bytes) ==> reading::marked(bytes) ==> exists|b: Batch, lowest_first: bool|
                #[trigger] reading::written_as(bytes, b, lowest_first) && b.fields@.len() >= 2,
        ensures
            match self@.manifest {
                None => r matches Ok(None),
                Some(bytes) => match r {
                    Ok(Some(m)) => reading::marked(bytes) && forall|b: Batch, lowest_first: bool|
                        #[trigger] reading::written_as(bytes, b, lowest_first) ==> manifest::batch_reads(Ok(m), b),
                    Ok(None) => false,
                    Err(e) => e is Arrow || forall|b: Batch, lowest_first: bool|
                        #[trigger] reading::written_as(bytes, b, lowest_first) ==> manifest::batch_reads(Err(e), b),
                },
            },
    {
        match &self.manifest {
            Some(bytes) => match Manifest::from_ipc(bytes.as_slice()) {
                Ok(m) => Ok(Some(m)),
                Err(e) => Err(e),
            },
            None => Ok(None),
        }
    }

    /// Checks a manifest: its version, then that every object and every table is
    /// there and has its digest. The first fault is returned.
    pub fn validate(&self, manifest: &Manifest) -> (r: Result<(), CacheError>)
        requires
            self.wf(),
            manifest.wf(),
        ensures
            match r {
                Ok(_) => manifest_fault(self@, manifest@) is None,
                Err(e) => manifest_fault(self@, manifest@) == Some(e@),
            },
    {
        if manifest.schema_version != ARROW_CACHE_SCHEMA_VERSION {
            return Err(CacheError::SchemaVersion { found: manifest.schema_version });
        }
        let ghost c = self@;
        let ghost m = manifest@;
        let ghost objects = object_faults(c, m);
        let ghost tables = table_faults(c, m);
        proof {
            manifest.objects.listed_names();
            manifest.tables.listed_names();
            assert(objects.take(0) =~= Seq::empty());
            assert(tables.take(0) =~= Seq::empty());
        }
        let n = manifest.objects.len();
        let mut i: usize = 0;
        while i < n
            invariant
                i <= n,
                n == manifest.objects.names().len(),
                self.wf(),
                manifest.wf(),
                c == self@,
                m == manifest@,
                m.version == ARROW_CACHE_SCHEMA_VERSION,
                manifest.objects.names() == table::listed(m.objects),
                manifest.objects.names().to_set() == m.objects.dom(),
                objects == object_faults(c, m),
                first_fault(objects.take(i as int)) is None,
            decreases n - i,
        {
            let (name, sha1) = manifest.objects.at(i);
            proof {
                let names = manifest.objects.names();
                assert(names.contains(names[i as int]));
                assert(names.to_set().contains(names[i as int]));
                assert(m.objects.dom().contains(name@));
                assert(m.objects[name@] == sha1@);
                assert(objects[i as int] == object_fault(c, name@, sha1@));
                assert(objects.take(i as int + 1).drop_last() =~= objects.take(i as int));
                assert(objects.take(i as int + 1).last() == objects[i as int]);
            }
            let checked = if is_set_name(name.as_str()) {
                let file = text::concat2(sha1.as_str(), ".hllset");
                check_file(&self.objects, file.as_str(), "object", name.as_str(), sha1.as_str())
            } else if text::same_text(name.as_str(), "tf_vec") {
                let file = text::concat2(sha1.as_str(), ".tfvec");
                check_file(&self.objects, file.as_str(), "object", name.as_str(), sha1.as_str())
            } else {
                Err(CacheError::BadManifest(text::concat2("unknown object logical name ", name.as_str())))
            };
            if let Err(e) = checked {
                proof {
                    first_stays(objects, i as int + 1);
                }
                return Err(e);
            }
            i = i + 1;
        }
        proof {
            assert(objects.take(i as int) =~= objects);
        }
        let k = manifest.tables.len();
        let mut j: usize = 0;
        while j < k
            invariant
                j <= k,
                k == manifest.tables.names().len(),
                self.wf(),
                manifest.wf(),
                c == self@,
                m == manifest@,
                m.version == ARROW_CACHE_SCHEMA_VERSION,
                manifest.tables.names() == table::listed(m.tables),
                manifest.tables.names().to_set() == m.tables.dom(),
                first_fault(object_faults(c, m)) is None,
                tables == table_faults(c, m),
                first_fault(tables.take(j as int)) is None,
            decreases k - j,
        {
            let (name, sha1) = manifest.tables.at(j);
            proof {
                let names = manifest.tables.names();
                assert(names.contains(names[j as int]));
                assert(names.to_set().contains(names[j as int]));
                assert(m.tables.dom().contains(name@));
                assert(m.tables[name@] == sha1@);
                assert(tables[j as int] == file_fault(c.tables, name@, "table"@, name@, sha1@));
                assert(tables.take(j as int + 1).drop_last() =~= tables.take(j as int));
                assert(tables.take(j as int + 1).last() == tables[j as int]);
            }
            let checked = check_file(&self.tables, name.as_str(), "table", name.as_str(), sha1.as_str());
            if let Err(e) = checked {
                proof {
                    first_stays(tables, j as int + 1);
                }
                return Err(e);
            }
            j = j + 1;
        }
        proof {
            assert(tables.take(j as int) =~= tables);
        }
        Ok(())
    }
}

/// What a cache gave back: the manifest, the sets and the counts that it names, and
/// the batches of its tables.
#[derive(Clone, Debug, PartialEq, Eq)]
pub struct Snapshot {
    pub manifest: Manifest,
    pub hllsets: TextTable<HLLSet>,
    /// Counts, each by its 64 bits.
    pub tf_vec: Option<Vec<u64>>,
    pub tables: TextTable<Batch>,
}

/// The sets of a table.
pub open spec fn sets_view(m: Map<Seq<char>, HLLSet>) -> Map<Seq<char>, Set<u32>> {
    m.map_values(|s: HLLSet| s@)
}

/// The file of the set of a name.
pub open spec fn set_file(c: CacheModel, m: ManifestModel, name: Seq<char>) -> Seq<u8> {
    c.objects[m.objects[name] + ".hllset"@]
}

/// What is wrong with the file of a set, if anything.
pub open spec fn load_fault(c: CacheModel, m: ManifestModel, name: Seq<char>) -> Option<Fault> {
    if set_name(name) && !hllset::valid_set_bytes(set_file(c, m, name)) {
        Some(Fault::Missing { what: "object"@, name })
    } else {
        None
    }
}

/// What is wrong with the files of the sets, in the order of the names.
pub open spec fn load_faults(c: CacheModel, m: ManifestModel) -> Seq<Option<Fault>> {
    table::listed(m.objects).map_values(|n: Seq<char>| load_fault(c, m, n))
}

/// The sets that a manifest names, among some names.
pub open spec fn sets_among(c: CacheModel, m: ManifestModel, names: Set<Seq<char>>) -> Map<Seq<char>, Set<u32>> {
    Map::new(|n: Seq<char>| names.contains(n) && set_name(n), |n: Seq<char>| hllset::set_in(set_file(c, m, n)))
}

/// The counts that a manifest names, among some names.
pub open spec fn counts_among(c: CacheModel, m: ManifestModel, names: Set<Seq<char>>) -> Option<Seq<u64>> {
    if names.contains("tf_vec"@) {
        Some(tf_values(c.objects[m.objects["tf_vec"@] + ".tfvec"@]))
    } else {
        None
    }
}

/// Whether batches are those of tables.
pub open spec fn tables_read(c: CacheModel, names: Set<Seq<char>>, got: Map<Seq<char>, Batch>) -> bool {
    &&& got.dom() == names
    &&& forall|n: Seq<char>, b: Batch, lowest_first: bool|
        names.contains(n) && #[trigger] reading::written_as(c.tables[n], b, lowest_first) ==> reading::same_batch(#[trigger] got[n], b)
}

impl Snapshot {
    pub open spec fn wf(&self) -> bool {
        self.manifest.wf() && self.hllsets.wf() && self.tables.wf()
    }

    /// Whether this is what a cache gives back for a manifest.
    pub open spec fn restores(&self, c: CacheModel, m: ManifestModel) -> bool {
        &&& self.wf()
        &&& self.manifest@ == m
        &&& sets_view(self.hllsets@) == sets_among(c, m, m.objects.dom())
        &&& (match self.tf_vec {
            Some(v) => Some(v@),
            None => None,
        }) == counts_among(c, m, m.objects.dom())
        &&& tables_read(c, m.tables.dom(), self.tables@)
    }
}

/// The sets and counts of a manifest.
struct Loaded {
    hllsets: TextTable<HLLSet>,
    tf_vec: Option<Vec<u64>>,
}

impl ExtendedCache {
    /// Loads the sets and the counts of a checked manifest.
    #[verifier::rlimit(40)]
    fn load_objects(&self, manifest: &Manifest) -> (r: Result<Loaded, CacheError>)
        requires
            self.wf(),
            manifest.wf(),
            manifest_fault(self@, manifest@) is None,
        ensures
            match r {
                Ok(got) => first_fault(load_faults(self@, manifest@)) is None && got.hllsets.wf() && sets_view(
                    got.hllsets@,
                ) == sets_among(self@, manifest@, manifest@.objects.dom()) && (match got.tf_vec {
                    Some(v) => Some(v@),
                    None => None,
                }) == counts_among(self@, manifest@, manifest@.objects.dom()),
                Err(e) => first_fault(load_faults(self@, manifest@)) == Some(e@),
            },
    {
        let ghost c = self@;
        let ghost m = manifest@;
        let ghost faults = load_faults(c, m);
        let mut hllsets: TextTable<HLLSet> = TextTable::new();
        let mut tf_vec: Option<Vec<u64>> = None;
        let ghost names = manifest.objects.names();
        proof {
            manifest.objects.listed_names();
            no_fault(object_faults(c, m));
            assert(faults.take(0) =~= Seq::empty());
            assert(names.take(0).to_set() =~= Set::empty());
            assert(sets_view(hllsets@) =~= sets_among(c, m, Set::empty()));
        }
        let n = manifest.objects.len();
        let mut i: usize = 0;
        while i < n
            invariant
                i <= n,
                n == names.len(),
                self.wf(),
                manifest.wf(),
                c == self@,
                m == manifest@,
                names == manifest.objects.names(),
                names == table::listed(m.objects),
                names.to_set() == m.objects.dom(),
                faults == load_faults(c, m),
                forall|k: int| 0 <= k < object_faults(c, m).len() ==> #[trigger] object_faults(c, m)[k] is None,
                hllsets.wf(),
                first_fault(faults.take(i as int)) is None,
                sets_view(hllsets@) == sets_among(c, m, names.take(i as int).to_set()),
                (match tf_vec {
                    Some(v) => Some(v@),
                    None => None,
                }) == counts_among(c, m, names.take(i as int).to_set()),
            decreases n - i,
        {
            let (name, sha1) = manifest.objects.at(i);
            let ghost some = names.take(i as int).to_set();
            proof {
                assert(names.contains(names[i as int]));
                assert(names.to_set().contains(names[i as int]));
                assert(m.objects.dom().contains(name@));
                assert(m.objects[name@] == sha1@);
                assert(object_faults(c, m)[i as int] == object_fault(c, name@, sha1@));
                assert(object_faults(c, m)[i as int] is None);
                assert(faults[i as int] == load_fault(c, m, name@));
                assert(faults.take(i as int + 1).drop_last() =~= faults.take(i as int));
                assert(faults.take(i as int + 1).last() == faults[i as int]);
                assert(names.take(i as int + 1) =~= names.take(i as int).push(name@));
                names.take(i as int).lemma_push_to_set_commute(name@);
                names_apart();
            }
            if is_set_name(name.as_str()) {
                match self.get_hllset(sha1.as_str()) {
                    Some(set) => {
                        let ghost before = hllsets@;
                        hllsets.insert(text::copy_str(name.as_str()), set);
                        proof {
                            assert(sets_view(hllsets@) =~= sets_view(before).insert(name@, set@));
                            assert(sets_among(c, m, some.insert(name@)) =~= sets_among(c, m, some).insert(name@, set@));
                        }
                    },
                    None => {
                        proof {
                            first_stays(faults, i as int + 1);
                        }
                        return Err(CacheError::Missing { what: text::copy_str("object"), name: text::copy_str(name.as_str()) });
                    },
                }
            } else {
                proof {
                    assert(sets_among(c, m, some.insert(name@)) =~= sets_among(c, m, some));
                }
                if text::same_text(name.as_str(), "tf_vec") {
                    tf_vec = self.get_tfvec(sha1.as_str());
                }
            }
            i = i + 1;
        }
        proof {
            assert(faults.take(i as int) =~= faults);
            assert(names.take(i as int) =~= names);
        }
        Ok(Loaded { hllsets, tf_vec })
    }

    /// Reads the tables of a checked manifest, if Arrow does.
    fn load_tables(&self, manifest: &Manifest) -> (r: Result<TextTable<Batch>, CacheError>)
        requires
            self.wf(),
            manifest.wf(),
            manifest_fault(self@, manifest@) is None,
            forall|n: Seq<char>| #[trigger] manifest@.tables.dom().contains(n) ==> readable_file(self@.tables, n),
        ensures
            match r {
                Ok(got) => got.wf() && tables_read(self@, manifest@.tables.dom(), got@),
                Err(e) => e@ == Fault::Arrow && !manifest@.tables.dom().is_empty(),
            },
    {
        let ghost c = self@;
        let ghost m = manifest@;
        let ghost names = manifest.tables.names();
        let mut tables: TextTable<Batch> = TextTable::new();
        proof {
            manifest.tables.listed_names();
            no_fault(table_faults(c, m));
            assert(names.take(0).to_set() =~= Set::empty());
            assert(tables@.dom() =~= Set::empty());
        }
        let n = manifest.tables.len();
        let mut i: usize = 0;
        while i < n
            invariant
                i <= n,
                n == names.len(),
                self.wf(),
                manifest.wf(),
                c == self@,
                m == manifest@,
                names == manifest.tables.names(),
                names == table::listed(m.tables),
                names.to_set() == m.tables.dom(),
                forall|k: int| 0 <= k < table_faults(c, m).len() ==> #[trigger] table_faults(c, m)[k] is None,
                forall|n: Seq<char>| #[trigger] m.tables.dom().contains(n) ==> readable_file(c.tables, n),
                tables.wf(),
                tables_read(c, names.take(i as int).to_set(), tables@),
            decreases n - i,
        {
            let (name, sha1) = manifest.tables.at(i);
            let ghost some = names.take(i as int).to_set();
            proof {
                assert(names.contains(names[i as int]));
                assert(names.to_set().contains(names[i as int]));
                assert(m.tables.dom().contains(name@));
                assert(table_faults(c, m)[i as int] is None);
                assert(c.tables.dom().contains(name@));
                assert(names.take(i as int + 1) =~= names.take(i as int).push(name@));
                names.take(i as int).lemma_push_to_set_commute(name@);
            }
            match self.read_table(name.as_str()) {
                Ok(Some(batch)) => {
                    let ghost before = tables@;
                    tables.insert(text::copy_str(name.as_str()), batch);
                    proof {
                        assert(tables@.dom() =~= some.insert(name@));
                        assert forall|x: Seq<char>, b: Batch, l: bool|
                            some.insert(name@).contains(x) && #[trigger] reading::written_as(c.tables[x], b, l) implies reading::same_batch(
                            #[trigger] tables@[x],
                            b,
                        ) by {
                            if x != name@ {
                                assert(reading::same_batch(before[x], b));
                            }
                        }
                    }
                },
                Ok(None) => {
                    return Err(CacheError::Missing { what: text::copy_str("table"), name: text::copy_str(name.as_str()) });
                },
                Err(e) => {
                    return Err(e);
                },
            }
            i = i + 1;
        }
        proof {
            assert(names.take(i as int) =~= names);
        }
        Ok(tables)
    }

    /// What the cache holds for a manifest: it is checked first, then its objects
    /// and tables are loaded.
    pub fn snapshot(&self, manifest: &Manifest) -> (r: Result<Snapshot, CacheError>)
        requires
            self.wf(),
            manifest.wf(),
            forall|n: Seq<char>| #[trigger] manifest@.tables.dom().contains(n) ==> readable_file(self@.tables, n),
        ensures
            match r {
                Ok(s) => manifest_fault(self@, manifest@) is None && first_fault(load_faults(self@, manifest@)) is None
                    && s.restores(self@, manifest@),
                Err(e) => match manifest_fault(self@, manifest@) {
                    Some(f) => e@ == f,
                    None => match first_fault(load_faults(self@, manifest@)) {
                        Some(f) => e@ == f,
                        None => e@ == Fault::Arrow,
                    },
                },
            },
            manifest_fault(self@, manifest@) is None && first_fault(load_faults(self@, manifest@)) is None
                && manifest@.tables.dom().is_empty() ==> r is Ok,
    {
        if let Err(e) = self.validate(manifest) {
            return Err(e);
        }
        let loaded = match self.load_objects(manifest) {
            Ok(got) => got,
            Err(e) => {
                return Err(e);
            },
        };
        let tables = match self.load_tables(manifest) {
            Ok(got) => got,
            Err(e) => {
                return Err(e);
            },
        };
        Ok(Snapshot { manifest: manifest.copy(), hllsets: loaded.hllsets, tf_vec: loaded.tf_vec, tables })
    }
}

/// Counts are not a set.
proof fn names_apart()
    ensures
        !set_name("tf_vec"@),
{
    reveal_strlit("tf_vec");
    reveal_strlit("G1");
    reveal_strlit("G2");
    reveal_strlit("G3");
    assert("tf_vec"@.len() == 6 && "G1"@.len() == 2 && "G2"@.len() == 2 && "G3"@.len() == 2);
}

/// A set that was put into a cache, in a manifest under its digest, is restored.
pub proof fn set_restored(c: CacheModel, m: ManifestModel, s: Snapshot, name: Seq<char>, set: Set<u32>)
    requires
        hllset::on_plane(set),
        set_name(name),
        m.objects.dom().contains(name),
        m.objects[name] == digest::sha1_text(hllset::set_bytes(set)),
        c.objects[m.objects[name] + ".hllset"@] == hllset::set_bytes(set),
        s.restores(c, m),
    ensures
        s.hllsets@.dom().contains(name),
        s.hllsets@[name]@ == set,
{
    hllset::bytes_round_trip(set);
    assert(sets_among(c, m, m.objects.dom()).dom().contains(name));
    assert(sets_view(s.hllsets@).dom().contains(name));
    assert(sets_view(s.hllsets@)[name] == set);
}

/// Counts that were put into a cache, in a manifest under their digest, are
/// restored.
pub proof fn counts_restored(c: CacheModel, m: ManifestModel, s: Snapshot, values: Seq<u64>)
    requires
        m.objects.dom().contains("tf_vec"@),
        m.objects["tf_vec"@] == digest::sha1_text(tf_bytes(values)),
        c.objects[m.objects["tf_vec"@] + ".tfvec"@] == tf_bytes(values),
        s.restores(c, m),
    ensures
        s.tf_vec matches Some(v) && v@ == values,
{
    tf_round_trip(values);
}

/// A sealed manifest that is read again is the one that was sealed.
pub proof fn sealed_manifest_restored(m: &Manifest, bytes: Seq<u8>, r: Result<Manifest, CacheError>)
    requires
        m.wf(),
        manifest::manifest_file(m@, bytes),
        forall|b: Batch, lowest_first: bool| #[trigger] reading::written_as(bytes, b, lowest_first) ==> manifest::batch_reads(r, b),
    ensures
        r matches Ok(back) && back@ == m@,
{
    let (b, rows, l) = choose|b: Batch, rows: Seq<(String, String)>, l: bool|
        #[trigger] manifest::manifest_batch(m@, b, rows) && #[trigger] reading::written_as(bytes, b, l);
    manifest::manifest_round_trip(m, b, rows, r);
}

/// A valid cache has a file with the right digest for every object and table, and
/// every object has a known name.
pub proof fn valid_cache(c: CacheModel, m: &Manifest)
    requires
        m.wf(),
    ensures
        manifest_fault(c, m@) is None <==> m.schema_version == ARROW_CACHE_SCHEMA_VERSION && (forall|n: Seq<char>|
            #[trigger] m@.objects.dom().contains(n) ==> object_fault(c, n, m@.objects[n]) is None) && (forall|n: Seq<char>|
            #[trigger] m@.tables.dom().contains(n) ==> file_fault(c.tables, n, "table"@, n, m@.tables[n]) is None),
{
    m.objects.listed_names();
    m.tables.listed_names();
    let objects = object_faults(c, m@);
    let tables = table_faults(c, m@);
    no_fault(objects);
    no_fault(tables);
    let a = table::listed(m@.objects);
    let b = table::listed(m@.tables);
    if manifest_fault(c, m@) is None {
        assert forall|n: Seq<char>| #[trigger] m@.objects.dom().contains(n) implies object_fault(c, n, m@.objects[n]) is None by {
            assert(a.to_set().contains(n));
            let i = choose|i: int| 0 <= i < a.len() && a[i] == n;
            assert(objects[i] is None);
        }
        assert forall|n: Seq<char>| #[trigger] m@.tables.dom().contains(n) implies file_fault(
            c.tables,
            n,
            "table"@,
            n,
            m@.tables[n],
        ) is None by {
            assert(b.to_set().contains(n));
            let i = choose|i: int| 0 <= i < b.len() && b[i] == n;
            assert(tables[i] is None);
        }
    }
    if m.schema_version == ARROW_CACHE_SCHEMA_VERSION && (forall|n: Seq<char>|
        #[trigger] m@.objects.dom().contains(n) ==> object_fault(c, n, m@.objects[n]) is None) && (forall|n: Seq<char>|
        #[trigger] m@.tables.dom().contains(n) ==> file_fault(c.tables, n, "table"@, n, m@.tables[n]) is None) {
        assert forall|i: int| 0 <= i < objects.len() implies #[trigger] objects[i] is None by {
            assert(a.contains(a[i]));
            assert(a.to_set().contains(a[i]));
            assert(m@.objects.dom().contains(a[i]));
        }
        assert forall|i: int| 0 <= i < tables.len() implies #[trigger] tables[i] is None by {
            assert(b.contains(b[i]));
            assert(b.to_set().contains(b[i]));
            assert(m@.tables.dom().contains(b[i]));
        }
    }
}

} // verus!
