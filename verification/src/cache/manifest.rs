//! The manifest of a cache: what its objects and tables are, and their digests.

use vstd::prelude::*;

use crate::cache::ipc::CacheError;
use crate::cache::rows::Batch;
use crate::cache::rows::Cell;
use crate::cache::rows::CellModel;
use crate::cache::rows::Kind;
use crate::cache::schema::TableRow;
use crate::table::TextTable;
use crate::text;
use crate::cache::ipc;
use crate::cache::schema;
use crate::context_tree;
use crate::digest;
use crate::order;
use crate::table;
use crate::cache::reading;
use crate::cache::rows;

verus! {

/// The version of the layout of a cache.
pub const ARROW_CACHE_SCHEMA_VERSION: u32 = 1;

/// The names of the objects that are sets.
pub const HLLSET_OBJECTS: [&'static str; 3] = ["G1", "G2", "G3"];

/// The name of the object that holds counts.
pub const TFVEC_OBJECT: &'static str = "tf_vec";

/// What a cache holds.
#[derive(Clone, Debug, PartialEq, Eq)]
pub struct Manifest {
    pub schema_version: u32,
    /// The commit at which the cache was taken.
    pub tip: String,
    pub created_at: String,
    /// The digests of the objects by name.
    pub objects: TextTable<String>,
    /// The digests of the tables' files by name.
    pub tables: TextTable<String>,
}

/// What a manifest says.
#[verifier::ext_equal]
pub struct ManifestModel {
    pub version: u32,
    pub tip: Seq<char>,
    pub created_at: Seq<char>,
    pub objects: Map<Seq<char>, Seq<char>>,
    pub tables: Map<Seq<char>, Seq<char>>,
}

impl View for Manifest {
    type V = ManifestModel;

    open spec fn view(&self) -> ManifestModel {
        ManifestModel {
            version: self.schema_version,
            tip: self.tip@,
            created_at: self.created_at@,
            objects: table::text_view(self.objects@),
            tables: table::text_view(self.tables@),
        }
    }
}

/// The entries of a table of digests, with a word before each name.
pub open spec fn prefixed(word: Seq<char>, m: Map<Seq<char>, Seq<char>>) -> Seq<(Seq<char>, Seq<char>)> {
    table::listed(m).map_values(|n: Seq<char>| (word + n, m[n]))
}

/// The entries of a manifest.
pub open spec fn manifest_pairs(m: ManifestModel) -> Seq<(Seq<char>, Seq<char>)> {
    seq![
        ("schema_version"@, text::decimal(m.version as nat)),
        ("tip"@, m.tip),
        ("created_at"@, m.created_at),
    ] + prefixed("object:"@, m.objects) + prefixed("table:"@, m.tables)
}

/// Whether a batch is that of a manifest.
pub open spec fn manifest_batch(m: ManifestModel, b: Batch, rows: Seq<(String, String)>) -> bool {
    schema::batch_of(b, rows) && context_tree::view_list(rows) == context_tree::sorted_views(manifest_pairs(m))
}

/// Whether bytes are the file of a manifest.
pub open spec fn manifest_file(m: ManifestModel, bytes: Seq<u8>) -> bool {
    exists|b: Batch, rows: Seq<(String, String)>, lowest_first: bool|
        #[trigger] manifest_batch(m, b, rows) && #[trigger] reading::written_as(bytes, b, lowest_first)
}

/// Appends the entries of a table of digests.
fn add_entries(rows: &mut Vec<(String, String)>, word: &str, t: &TextTable<String>)
    requires
        t.wf(),
    ensures
        context_tree::view_list(final(rows)@) == context_tree::view_list(old(rows)@) + prefixed(word@, table::text_view(t@)),
{
    let ghost m = table::text_view(t@);
    let ghost start = context_tree::view_list(rows@);
    let n = t.len();
    proof {
        t.facts();
        assert(m.dom() =~= t@.dom());
        assert(table::ascending_names(t.names()) && t.names().to_set() == m.dom());
        table::ascending_names_unique(t.names(), table::listed(m));
        assert(prefixed(word@, m).take(0) =~= Seq::empty());
        assert(context_tree::view_list(rows@) =~= start + prefixed(word@, m).take(0));
    }
    let mut i: usize = 0;
    while i < n
        invariant
            i <= n,
            n == t.names().len(),
            t.wf(),
            m == table::text_view(t@),
            t.names() == table::listed(m),
            t.names().to_set() == t@.dom(),
            context_tree::view_list(rows@) == start + prefixed(word@, m).take(i as int),
        decreases n - i,
    {
        let e = t.at(i);
        let row = (text::concat2(word, e.0.as_str()), text::copy_str(e.1.as_str()));
        let ghost before = rows@;
        rows.push(row);
        proof {
            let name = t.names()[i as int];
            assert(t.names().contains(name));
            assert(t@.dom().contains(name));
            assert(prefixed(word@, m)[i as int] == (word@ + name, m[name]));
            assert(prefixed(word@, m).take(i as int + 1) =~= prefixed(word@, m).take(i as int).push(
                prefixed(word@, m)[i as int],
            ));
            assert(context_tree::view_list(rows@) =~= context_tree::view_list(before).push((row.0@, row.1@)));
            assert(context_tree::view_list(rows@) =~= start + prefixed(word@, m).take(i as int + 1));
        }
        i = i + 1;
    }
    proof {
        assert(prefixed(word@, m).take(i as int) =~= prefixed(word@, m));
    }
}

impl Manifest {
    pub open spec fn wf(&self) -> bool {
        self.objects.wf() && self.tables.wf()
    }

    /// A manifest of the current layout, without objects and tables.
    pub fn new(tip: &str, created_at: &str) -> (m: Manifest)
        ensures
            m.wf(),
            m.schema_version == ARROW_CACHE_SCHEMA_VERSION,
            m.tip@ == tip@,
            m.created_at@ == created_at@,
            m.objects@ == Map::<Seq<char>, String>::empty(),
            m.tables@ == Map::<Seq<char>, String>::empty(),
    {
        Manifest {
            schema_version: ARROW_CACHE_SCHEMA_VERSION,
            tip: text::copy_str(tip),
            created_at: text::copy_str(created_at),
            objects: TextTable::new(),
            tables: TextTable::new(),
        }
    }

    /// The entries in order.
    pub fn rows(&self) -> (rows: Vec<(String, String)>)
        requires
            self.wf(),
        ensures
            context_tree::view_list(rows@) == context_tree::sorted_views(manifest_pairs(self@)),
    {
        let mut rows: Vec<(String, String)> = Vec::new();
        rows.push((text::copy_str("schema_version"), text::decimal_string(self.schema_version as u64)));
        rows.push((text::copy_str("tip"), text::copy_str(self.tip.as_str())));
        rows.push((text::copy_str("created_at"), text::copy_str(self.created_at.as_str())));
        proof {
            assert(context_tree::view_list(rows@) =~= seq![
                ("schema_version"@, text::decimal(self.schema_version as nat)),
                ("tip"@, self.tip@),
                ("created_at"@, self.created_at@),
            ]);
        }
        add_entries(&mut rows, "object:", &self.objects);
        add_entries(&mut rows, "table:", &self.tables);
        let ghost items = rows@;
        let sorted = order::sort_items(rows);
        proof {
            assert(context_tree::view_list(items) == manifest_pairs(self@));
            context_tree::pair_rank_faithful();
            order::ranked_images(sorted@, items, context_tree::pair_view(), context_tree::pair_rank());
            assert(context_tree::view_list(sorted@) =~= sorted@.map_values(context_tree::pair_view()));
            assert(context_tree::view_list(items) =~= items.map_values(context_tree::pair_view()));
        }
        sorted
    }

    /// The manifest's file; an error where its entries are too heavy.
    pub fn to_ipc(&self) -> (r: Result<Vec<u8>, CacheError>)
        requires
            self.wf(),
        ensures
            exists|b: Batch, rows: Seq<(String, String)>|
                #[trigger] manifest_batch(self@, b, rows) && (r is Ok <==> ipc::writable(b)),
            r is Ok ==> manifest_file(self@, r->Ok_0@),
            r is Err ==> r->Err_0 is Arrow,
    {
        let rows = self.rows();
        let b = schema::entries_batch(&rows);
        let r = ipc::to_ipc(&b);
        proof {
            assert(manifest_batch(self@, b, rows@));
            if r is Ok {
                let l = choose|l: bool| r->Ok_0@ == #[trigger] ipc::batch_ipc(b, l);
                assert(reading::written_as(r->Ok_0@, b, l));
            }
        }
        r
    }
}

/// The key of a cache: `c:` and the digest of its manifest's file.
pub fn content_key(manifest_ipc_bytes: &[u8]) -> (key: String)
    ensures
        key@ == "c:"@ + digest::sha1_text(manifest_ipc_bytes@),
{
    let digest = digest::sha1_hex(manifest_ipc_bytes);
    text::concat2("c:", digest.as_str())
}

/// A manifest as far as it was read.
#[verifier::ext_equal]
pub struct Scan {
    pub version: Option<u32>,
    pub tip: Seq<char>,
    pub created_at: Seq<char>,
    pub objects: Map<Seq<char>, Seq<char>>,
    pub tables: Map<Seq<char>, Seq<char>>,
}

/// A reading: so far, or what was wrong.
pub enum Scanned {
    Good(Scan),
    Bad(Seq<char>),
}

/// Nothing read yet.
pub open spec fn nothing() -> Scan {
    Scan { version: None, tip: Seq::empty(), created_at: Seq::empty(), objects: Map::empty(), tables: Map::empty() }
}

/// A reading after one more entry.
pub open spec fn scanned(s: Scan, k: Seq<char>, v: Seq<char>) -> Scanned {
    if k == "schema_version"@ {
        match text::parsed(v, u32::MAX as nat) {
            Some(n) => Scanned::Good(Scan { version: Some(n as u32), ..s }),
            None => Scanned::Bad("schema_version not a u32: "@ + v),
        }
    } else if k == "tip"@ {
        Scanned::Good(Scan { tip: v, ..s })
    } else if k == "created_at"@ {
        Scanned::Good(Scan { created_at: v, ..s })
    } else if "object:"@.is_prefix_of(k) {
        Scanned::Good(Scan { objects: s.objects.insert(k.skip(7), v), ..s })
    } else if "table:"@.is_prefix_of(k) {
        Scanned::Good(Scan { tables: s.tables.insert(k.skip(6), v), ..s })
    } else {
        Scanned::Bad("unknown key "@ + k)
    }
}

/// A reading of a list of entries.
pub open spec fn scan_of(pairs: Seq<(Seq<char>, Seq<char>)>) -> Scanned
    decreases pairs.len(),
{
    if pairs.len() == 0 {
        Scanned::Good(nothing())
    } else {
        match scan_of(pairs.drop_last()) {
            Scanned::Good(s) => scanned(s, pairs.last().0, pairs.last().1),
            Scanned::Bad(w) => Scanned::Bad(w),
        }
    }
}

/// Where the first entries are bad, the whole is.
proof fn bad_stays(pairs: Seq<(Seq<char>, Seq<char>)>, n: int)
    requires
        0 <= n <= pairs.len(),
        scan_of(pairs.take(n)) is Bad,
    ensures
        scan_of(pairs) == scan_of(pairs.take(n)),
    decreases pairs.len() - n,
{
    if n == pairs.len() {
        assert(pairs.take(n) =~= pairs);
    } else {
        assert(pairs.take(n + 1).drop_last() =~= pairs.take(n));
        bad_stays(pairs, n + 1);
    }
}

/// Whether a result is the reading of a list of entries.
pub open spec fn reads(r: Result<Manifest, CacheError>, pairs: Seq<(Seq<char>, Seq<char>)>) -> bool {
    match r {
        Ok(m) => m.wf() && (scan_of(pairs) matches Scanned::Good(s) && s.version == Some(m.schema_version) && s.tip
            == m.tip@ && s.created_at == m.created_at@ && s.objects == table::text_view(m.objects@) && s.tables
            == table::text_view(m.tables@)),
        Err(CacheError::BadManifest(w)) => match scan_of(pairs) {
            Scanned::Good(s) => s.version is None && w@ == "missing schema_version"@,
            Scanned::Bad(x) => w@ == x,
        },
        Err(_) => false,
    }
}

/// The table with one more text.
proof fn text_view_insert(m: Map<Seq<char>, String>, name: Seq<char>, value: String)
    ensures
        table::text_view(m.insert(name, value)) == table::text_view(m).insert(name, value@),
{
    assert(table::text_view(m.insert(name, value)) =~= table::text_view(m).insert(name, value@));
}

impl Manifest {
    /// Reads the entries of a manifest.
    pub fn from_rows(rows: &Vec<(String, String)>) -> (r: Result<Manifest, CacheError>)
        ensures
            reads(r, context_tree::view_list(rows@)),
    {
        let ghost all = context_tree::view_list(rows@);
        let mut version: Option<u32> = None;
        let mut tip = String::new();
        let mut created_at = String::new();
        let mut objects: TextTable<String> = TextTable::new();
        let mut tables: TextTable<String> = TextTable::new();
        proof {
            assert(table::text_view(objects@) =~= Map::empty());
            assert(all.take(0) =~= Seq::empty());
            reveal_strlit("object:");
            reveal_strlit("table:");
        }
        let mut i: usize = 0;
        while i < rows.len()
            invariant
                i <= rows@.len(),
                all == context_tree::view_list(rows@),
                objects.wf(),
                tables.wf(),
                "object:"@.len() == 7,
                "table:"@.len() == 6,
                scan_of(all.take(i as int)) == Scanned::Good(
                    Scan {
                        version,
                        tip: tip@,
                        created_at: created_at@,
                        objects: table::text_view(objects@),
                        tables: table::text_view(tables@),
                    },
                ),
            decreases rows.len() - i,
        {
            let key = text::chars_of(rows[i].0.as_str());
            let value = text::copy_str(rows[i].1.as_str());
            proof {
                assert(all.take(i as int + 1).drop_last() =~= all.take(i as int));
                assert(all.take(i as int + 1).last() == (rows@[i as int].0@, rows@[i as int].1@));
            }
            if text::spells(key.as_slice(), "schema_version") {
                let digits = text::chars_of(value.as_str());
                match text::parse_decimal(digits.as_slice(), u32::MAX as u64) {
                    Some(n) => {
                        version = Some(n as u32);
                    },
                    None => {
                        proof {
                            bad_stays(all, i as int + 1);
                        }
                        return Err(CacheError::BadManifest(text::concat2("schema_version not a u32: ", value.as_str())));
                    },
                }
            } else if text::spells(key.as_slice(), "tip") {
                tip = value;
            } else if text::spells(key.as_slice(), "created_at") {
                created_at = value;
            } else if text::begins_with(key.as_slice(), "object:") {
                let name = text::string_of(text::tail_from(key.as_slice(), 7));
                proof {
                    text_view_insert(objects@, name@, value);
                }
                objects.insert(name, value);
            } else if text::begins_with(key.as_slice(), "table:") {
                let name = text::string_of(text::tail_from(key.as_slice(), 6));
                proof {
                    text_view_insert(tables@, name@, value);
                }
                tables.insert(name, value);
            } else {
                proof {
                    bad_stays(all, i as int + 1);
                }
                return Err(CacheError::BadManifest(text::concat2("unknown key ", rows[i].0.as_str())));
            }
            i = i + 1;
        }
        proof {
            assert(all.take(i as int) =~= all);
        }
        match version {
            Some(schema_version) => Ok(Manifest { schema_version, tip, created_at, objects, tables }),
            None => Err(CacheError::BadManifest(text::copy_str("missing schema_version"))),
        }
    }
}

/// The text of a value, where it is one.
pub open spec fn text_in(c: CellModel) -> Seq<char> {
    match c {
        CellModel::Text(s) => s,
        _ => Seq::empty(),
    }
}

/// The entries in the first two columns of a batch.
pub open spec fn batch_pairs(b: Batch) -> Seq<(Seq<char>, Seq<char>)> {
    b.spec_rows().map_values(|r: Seq<CellModel>| (text_in(r[0]), text_in(r[1])))
}

/// Whether a result is the reading of a batch.
pub open spec fn batch_reads(r: Result<Manifest, CacheError>, b: Batch) -> bool {
    if b.kinds()[0] != Kind::Text {
        r matches Err(CacheError::BadManifest(w)) && w@ == "key column is not Utf8"@
    } else if b.kinds()[1] != Kind::Text {
        r matches Err(CacheError::BadManifest(w)) && w@ == "value column is not Utf8"@
    } else {
        reads(r, batch_pairs(b))
    }
}

/// The text of a value.
fn text_of_cell(c: &Cell) -> (s: String)
    ensures
        s@ == text_in(c@),
{
    match c {
        Cell::Text(s) => text::copy_str(s.as_str()),
        _ => String::new(),
    }
}

impl Manifest {
    /// Reads the batch of a manifest.
    pub fn from_batch(b: &Batch) -> (r: Result<Manifest, CacheError>)
        requires
            b.wf(),
            b.fields@.len() >= 2,
        ensures
            batch_reads(r, *b),
    {
        proof {
            assert(b.kinds()[0] == b.fields@[0].kind && b.kinds()[1] == b.fields@[1].kind);
        }
        if !is_text(b.fields[0].kind) {
            return Err(CacheError::BadManifest(text::copy_str("key column is not Utf8")));
        }
        if !is_text(b.fields[1].kind) {
            return Err(CacheError::BadManifest(text::copy_str("value column is not Utf8")));
        }
        let mut rows: Vec<(String, String)> = Vec::new();
        let mut i: usize = 0;
        while i < b.rows.len()
            invariant
                i <= b.rows@.len(),
                b.wf(),
                b.fields@.len() >= 2,
                rows@.len() == i,
                forall|j: int|
                    0 <= j < i ==> (#[trigger] rows@[j]).0@ == batch_pairs(*b)[j].0 && rows@[j].1@ == batch_pairs(*b)[j].1,
            decreases b.rows.len() - i,
        {
            proof {
                let row = b.spec_rows()[i as int];
                assert(rows::row_fits(row, b.kinds()));
                assert(row.map_values(|x: CellModel| rows::kind_of(x)).len() == row.len());
                assert(row[0] == b.rows@[i as int].cells@[0]@);
                assert(row[1] == b.rows@[i as int].cells@[1]@);
            }
            let cells = &b.rows[i].cells;
            rows.push((text_of_cell(&cells[0]), text_of_cell(&cells[1])));
            i = i + 1;
        }
        proof {
            assert(context_tree::view_list(rows@) =~= batch_pairs(*b));
        }
        Manifest::from_rows(&rows)
    }

    /// Reads the file of a manifest, if Arrow does.
    pub fn from_ipc(bytes: &[u8]) -> (r: Result<Manifest, CacheError>)
        requires
            reading::marked(bytes@) ==> exists|b: Batch, lowest_first: bool|
                #[trigger] reading::written_as(bytes@, b, lowest_first) && b.fields@.len() >= 2,
        ensures
            !reading::marked(bytes@) ==> (r matches Err(e) && e is Arrow),
            (r matches Err(e) && e is Arrow) || forall|b: Batch, lowest_first: bool|
                #[trigger] reading::written_as(bytes@, b, lowest_first) ==> batch_reads(r, b),
    {
        match reading::from_ipc(bytes) {
            Ok(out) => {
                proof {
                    let (b, l) = choose|b: Batch, l: bool|
                        #[trigger] reading::written_as(bytes@, b, l) && b.fields@.len() >= 2;
                    assert(reading::same_batch(out, b));
                    assert(out.kinds().len() == b.kinds().len());
                }
                let r = Manifest::from_batch(&out);
                proof {
                    assert forall|b: Batch, l: bool| #[trigger] reading::written_as(bytes@, b, l) implies batch_reads(r, b) by {
                        assert(reading::same_batch(out, b));
                        assert(batch_pairs(out) =~= batch_pairs(b));
                    }
                }
                r
            },
            Err(e) => Err(e),
        }
    }
}

/// Whether a kind is that of texts.
fn is_text(k: Kind) -> (yes: bool)
    ensures
        yes == (k == Kind::Text),
{
    match k {
        Kind::Text => true,
        _ => false,
    }
}

/// Whether an entry is one of a manifest.
pub open spec fn entry_of(m: ManifestModel, e: (Seq<char>, Seq<char>)) -> bool {
    ||| e == ("schema_version"@, text::decimal(m.version as nat))
    ||| e == ("tip"@, m.tip)
    ||| e == ("created_at"@, m.created_at)
    ||| exists|n: Seq<char>| #[trigger] m.objects.dom().contains(n) && e == ("object:"@ + n, m.objects[n])
    ||| exists|n: Seq<char>| #[trigger] m.tables.dom().contains(n) && e == ("table:"@ + n, m.tables[n])
}

/// The names with entries in a list.
pub open spec fn named_in(word: Seq<char>, m: Map<Seq<char>, Seq<char>>, list: Seq<(Seq<char>, Seq<char>)>) -> Map<
    Seq<char>,
    Seq<char>,
> {
    m.restrict(Set::new(|n: Seq<char>| list.contains((word + n, m[n]))))
}

/// What was read after some entries of a manifest.
pub open spec fn part_read(m: ManifestModel, list: Seq<(Seq<char>, Seq<char>)>) -> Scan {
    Scan {
        version: if list.contains(("schema_version"@, text::decimal(m.version as nat))) {
            Some(m.version)
        } else {
            None
        },
        tip: if list.contains(("tip"@, m.tip)) {
            m.tip
        } else {
            Seq::empty()
        },
        created_at: if list.contains(("created_at"@, m.created_at)) {
            m.created_at
        } else {
            Seq::empty()
        },
        objects: named_in("object:"@, m.objects, list),
        tables: named_in("table:"@, m.tables, list),
    }
}

/// The keys of the entries are told apart.
proof fn keys_apart(n: Seq<char>)
    ensures
        "schema_version"@ != "tip"@,
        "schema_version"@ != "created_at"@,
        "tip"@ != "created_at"@,
        "object:"@ + n != "schema_version"@,
        "object:"@ + n != "tip"@,
        "object:"@ + n != "created_at"@,
        "table:"@ + n != "schema_version"@,
        "table:"@ + n != "tip"@,
        "table:"@ + n != "created_at"@,
        "object:"@.is_prefix_of("object:"@ + n),
        !"object:"@.is_prefix_of("table:"@ + n),
        "table:"@.is_prefix_of("table:"@ + n),
        ("object:"@ + n).skip(7) == n,
        ("table:"@ + n).skip(6) == n,
        "object:"@.len() == 7,
        "table:"@.len() == 6,
{
    reveal_strlit("schema_version");
    reveal_strlit("tip");
    reveal_strlit("created_at");
    reveal_strlit("object:");
    reveal_strlit("table:");
    let o = "object:"@ + n;
    let t = "table:"@ + n;
    assert(o[0] == 'o' && t[0] == 't' && t[1] == 'a');
    assert("schema_version"@[0] == 's' && "tip"@[0] == 't' && "tip"@[1] == 'i' && "created_at"@[0] == 'c');
    assert("object:"@[0] == 'o');
    assert(o.subrange(0, 7) =~= "object:"@);
    assert(t.subrange(0, 6) =~= "table:"@);
    assert(o.skip(7) =~= n);
    assert(t.skip(6) =~= n);
    assert(forall|k: Seq<char>| "object:"@.is_prefix_of(k) ==> k[0] == "object:"@[0]);
}

/// One more entry adds one more name.
proof fn named_more(word: Seq<char>, m: Map<Seq<char>, Seq<char>>, list: Seq<(Seq<char>, Seq<char>)>, n: Seq<char>)
    requires
        list.len() > 0,
        m.dom().contains(n),
        list.last() == (word + n, m[n]),
    ensures
        named_in(word, m, list) == named_in(word, m, list.drop_last()).insert(n, m[n]),
{
    let a = named_in(word, m, list);
    let b = named_in(word, m, list.drop_last()).insert(n, m[n]);
    assert forall|x: Seq<char>| a.dom().contains(x) <==> b.dom().contains(x) by {
        last_or_before(list, (word + x, m[x]));
        if word + x == word + n {
            assert((word + x).skip(word.len() as int) =~= x);
            assert((word + n).skip(word.len() as int) =~= n);
        }
    }
    assert(a =~= b);
}

/// An entry for something else adds no name.
proof fn named_same(word: Seq<char>, m: Map<Seq<char>, Seq<char>>, list: Seq<(Seq<char>, Seq<char>)>)
    requires
        list.len() > 0,
        forall|n: Seq<char>| list.last().0 != #[trigger] (word + n),
    ensures
        named_in(word, m, list) == named_in(word, m, list.drop_last()),
{
    assert forall|x: Seq<char>| #[trigger] named_in(word, m, list).dom().contains(x) <==> named_in(word, m, list.drop_last()).dom().contains(
        x,
    ) by {
        last_or_before(list, (word + x, m[x]));
        assert(list.last().0 != word + x);
    }
    assert(named_in(word, m, list) =~= named_in(word, m, list.drop_last()));
}

/// What a list holds is its last item or among those before it.
proof fn last_or_before<A>(list: Seq<A>, x: A)
    requires
        list.len() > 0,
    ensures
        list.contains(x) <==> x == list.last() || list.drop_last().contains(x),
{
    if list.contains(x) {
        let i = choose|i: int| 0 <= i < list.len() && list[i] == x;
        if i < list.len() - 1 {
            assert(list.drop_last()[i] == x);
        }
    }
    if list.drop_last().contains(x) {
        let i = choose|i: int| 0 <= i < list.drop_last().len() && list.drop_last()[i] == x;
        assert(list[i] == x);
    }
    assert(list[list.len() - 1] == list.last());
}

/// Entries of a manifest are read one by one, in whatever order they come.
#[verifier::rlimit(40)]
proof fn scan_of_entries(m: ManifestModel, list: Seq<(Seq<char>, Seq<char>)>)
    requires
        forall|i: int| 0 <= i < list.len() ==> entry_of(m, #[trigger] list[i]),
    ensures
        scan_of(list) == Scanned::Good(part_read(m, list)),
    decreases list.len(),
{
    if list.len() == 0 {
        assert(part_read(m, list) =~= nothing());
    } else {
        let before = list.drop_last();
        assert forall|i: int| 0 <= i < before.len() implies entry_of(m, #[trigger] before[i]) by {
            assert(before[i] == list[i]);
        }
        scan_of_entries(m, before);
        let e = list.last();
        assert(entry_of(m, list[list.len() - 1]));
        keys_apart(Seq::empty());
        last_or_before(list, ("schema_version"@, text::decimal(m.version as nat)));
        last_or_before(list, ("tip"@, m.tip));
        last_or_before(list, ("created_at"@, m.created_at));
        if e == ("schema_version"@, text::decimal(m.version as nat)) {
            assert forall|n: Seq<char>| e.0 != #[trigger] ("object:"@ + n) by {
                keys_apart(n);
            }
            assert forall|n: Seq<char>| e.0 != #[trigger] ("table:"@ + n) by {
                keys_apart(n);
            }
            named_same("object:"@, m.objects, list);
            named_same("table:"@, m.tables, list);
            text::decimal_round_trip(m.version as nat, u32::MAX as nat);
            assert(scanned(part_read(m, before), e.0, e.1) == Scanned::Good(part_read(m, list)));
        } else if e == ("tip"@, m.tip) || e == ("created_at"@, m.created_at) {
            assert forall|n: Seq<char>| e.0 != #[trigger] ("object:"@ + n) by {
                keys_apart(n);
            }
            assert forall|n: Seq<char>| e.0 != #[trigger] ("table:"@ + n) by {
                keys_apart(n);
            }
            named_same("object:"@, m.objects, list);
            named_same("table:"@, m.tables, list);
            assert(scanned(part_read(m, before), e.0, e.1) == Scanned::Good(part_read(m, list)));
        } else if exists|n: Seq<char>| #[trigger] m.objects.dom().contains(n) && e == ("object:"@ + n, m.objects[n]) {
            let n = choose|n: Seq<char>| #[trigger] m.objects.dom().contains(n) && e == ("object:"@ + n, m.objects[n]);
            keys_apart(n);
            named_more("object:"@, m.objects, list, n);
            assert forall|x: Seq<char>| e.0 != #[trigger] ("table:"@ + x) by {
                keys_apart(x);
            }
            named_same("table:"@, m.tables, list);
            assert(scanned(part_read(m, before), e.0, e.1) == Scanned::Good(part_read(m, list)));
        } else {
            let n = choose|n: Seq<char>| #[trigger] m.tables.dom().contains(n) && e == ("table:"@ + n, m.tables[n]);
            keys_apart(n);
            named_more("table:"@, m.tables, list, n);
            assert forall|x: Seq<char>| e.0 != #[trigger] ("object:"@ + x) by {
                keys_apart(x);
            }
            named_same("object:"@, m.objects, list);
            assert(scanned(part_read(m, before), e.0, e.1) == Scanned::Good(part_read(m, list)));
        }
    }
}

/// What the entries of a manifest are.
proof fn pairs_are_entries(m: &Manifest)
    requires
        m.wf(),
    ensures
        forall|e: (Seq<char>, Seq<char>)| manifest_pairs(m@).contains(e) <==> #[trigger] entry_of(m@, e),
{
    let model = m@;
    let fixed = seq![
        ("schema_version"@, text::decimal(model.version as nat)),
        ("tip"@, model.tip),
        ("created_at"@, model.created_at),
    ];
    let objects = prefixed("object:"@, model.objects);
    let tables = prefixed("table:"@, model.tables);
    m.objects.listed_names();
    m.tables.listed_names();
    let all = manifest_pairs(model);
    assert forall|e: (Seq<char>, Seq<char>)| all.contains(e) <==> #[trigger] entry_of(model, e) by {
        if all.contains(e) {
            let i = choose|i: int| 0 <= i < all.len() && all[i] == e;
            if i < 3 {
                assert(all[i] == fixed[i]);
            } else if i < 3 + objects.len() {
                let n = table::listed(model.objects)[i - 3];
                assert(all[i] == objects[i - 3]);
                assert(table::listed(model.objects).contains(n));
                assert(table::listed(model.objects).to_set().contains(n));
                assert(model.objects.dom().contains(n));
            } else {
                let k = i - 3 - objects.len();
                let n = table::listed(model.tables)[k];
                assert(all[i] == tables[k]);
                assert(table::listed(model.tables).contains(n));
                assert(table::listed(model.tables).to_set().contains(n));
                assert(model.tables.dom().contains(n));
            }
        }
        if entry_of(model, e) {
            assert(all[0] == fixed[0] && all[1] == fixed[1] && all[2] == fixed[2]);
            if exists|n: Seq<char>| #[trigger] model.objects.dom().contains(n) && e == ("object:"@ + n, model.objects[n]) {
                let n = choose|n: Seq<char>| #[trigger] model.objects.dom().contains(n) && e == ("object:"@ + n, model.objects[n]);
                assert(table::listed(model.objects).to_set().contains(n));
                let i = choose|i: int| 0 <= i < table::listed(model.objects).len() && table::listed(model.objects)[i] == n;
                assert(objects[i] == e);
                assert(all[3 + i] == e);
            } else if exists|n: Seq<char>| #[trigger] model.tables.dom().contains(n) && e == ("table:"@ + n, model.tables[n]) {
                let n = choose|n: Seq<char>| #[trigger] model.tables.dom().contains(n) && e == ("table:"@ + n, model.tables[n]);
                assert(table::listed(model.tables).to_set().contains(n));
                let i = choose|i: int| 0 <= i < table::listed(model.tables).len() && table::listed(model.tables)[i] == n;
                assert(tables[i] == e);
                assert(all[3 + objects.len() + i] == e);
            }
        }
    }
}

/// A manifest comes back from its entries, in whatever order they are read.
pub proof fn entries_round_trip(m: &Manifest, pairs: Seq<(Seq<char>, Seq<char>)>, r: Result<Manifest, CacheError>)
    requires
        m.wf(),
        pairs.to_set() == manifest_pairs(m@).to_set(),
        reads(r, pairs),
    ensures
        r matches Ok(back) && back@ == m@,
{
    let all = manifest_pairs(m@);
    pairs_are_entries(m);
    assert forall|i: int| 0 <= i < pairs.len() implies entry_of(m@, #[trigger] pairs[i]) by {
        assert(pairs.contains(pairs[i]));
        assert(pairs.to_set().contains(pairs[i]));
        assert(all.to_set().contains(pairs[i]));
    }
    assert forall|e: (Seq<char>, Seq<char>)| #[trigger] entry_of(m@, e) implies pairs.contains(e) by {
        assert(all.contains(e));
        assert(all.to_set().contains(e));
        assert(pairs.to_set().contains(e));
    }
    scan_of_entries(m@, pairs);
    let s = part_read(m@, pairs);
    assert(entry_of(m@, ("schema_version"@, text::decimal(m@.version as nat))));
    assert(entry_of(m@, ("tip"@, m@.tip)));
    assert(entry_of(m@, ("created_at"@, m@.created_at)));
    assert forall|n: Seq<char>| m@.objects.dom().contains(n) implies s.objects.dom().contains(n) by {
        assert(entry_of(m@, ("object:"@ + n, m@.objects[n])));
    }
    assert(s.objects =~= m@.objects);
    assert forall|n: Seq<char>| m@.tables.dom().contains(n) implies s.tables.dom().contains(n) by {
        assert(entry_of(m@, ("table:"@ + n, m@.tables[n])));
    }
    assert(s.tables =~= m@.tables);
    if r is Ok {
        assert(r->Ok_0@ =~= m@);
    }
}

/// A manifest that is read from its own file comes back.
pub proof fn manifest_round_trip(m: &Manifest, b: Batch, rows: Seq<(String, String)>, r: Result<Manifest, CacheError>)
    requires
        m.wf(),
        schema::batch_of(b, rows),
        context_tree::view_list(rows) == context_tree::sorted_views(manifest_pairs(m@)),
        batch_reads(r, b),
    ensures
        r matches Ok(back) && back@ == m@,
{
    let cells = schema::cells_of_rows(rows);
    let all = manifest_pairs(m@);
    rows::row_rank_faithful();
    order::rank_total(rows::row_rank());
    cells.lemma_sort_by_ensures(order::rank_leq(rows::row_rank()));
    context_tree::pair_rank_faithful();
    order::rank_total(context_tree::pair_rank());
    all.lemma_sort_by_ensures(order::rank_leq(context_tree::pair_rank()));
    let pairs = batch_pairs(b);
    assert(b.kinds() == seq![Kind::Text, Kind::Text]);
    assert(b.spec_rows().to_multiset() == cells.to_multiset());
    same_members(b.spec_rows(), cells);
    same_members(context_tree::view_list(rows), all);
    assert forall|e: (Seq<char>, Seq<char>)| pairs.to_set().contains(e) <==> all.to_set().contains(e) by {
        if pairs.contains(e) {
            let i = choose|i: int| 0 <= i < pairs.len() && pairs[i] == e;
            let x = b.spec_rows()[i];
            assert(b.spec_rows().contains(x));
            assert(cells.contains(x));
            let j = choose|j: int| 0 <= j < cells.len() && cells[j] == x;
            assert(cells[j] == rows[j].spec_cells());
            assert(context_tree::view_list(rows)[j] == e);
            assert(context_tree::view_list(rows).contains(e));
            assert(all.contains(e));
        }
        if all.contains(e) {
            assert(context_tree::view_list(rows).contains(e));
            let j = choose|j: int| 0 <= j < rows.len() && context_tree::view_list(rows)[j] == e;
            assert(cells[j] == rows[j].spec_cells());
            assert(cells.contains(cells[j]));
            assert(b.spec_rows().contains(cells[j]));
            let i = choose|i: int| 0 <= i < b.spec_rows().len() && b.spec_rows()[i] == cells[j];
            assert(pairs[i] == e);
        }
    }
    assert(pairs.to_set() =~= all.to_set());
    entries_round_trip(m, pairs, r);
}

/// Lists with the same items, counted, hold the same items.
proof fn same_members<A>(a: Seq<A>, b: Seq<A>)
    requires
        a.to_multiset() == b.to_multiset(),
    ensures
        forall|x: A| #[trigger] a.contains(x) <==> b.contains(x),
{
    a.to_multiset_ensures();
    b.to_multiset_ensures();
    assert forall|x: A| #[trigger] a.contains(x) <==> b.contains(x) by {
        assert(a.contains(x) <==> a.to_multiset().count(x) > 0);
        assert(b.contains(x) <==> b.to_multiset().count(x) > 0);
    }
}

} // verus!
