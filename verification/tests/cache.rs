use ewm_state_machine::cache::directory::{select_rows, ExtendedCache};
use ewm_state_machine::cache::ipc::{to_ipc, CacheError};
use ewm_state_machine::cache::manifest::{content_key, Manifest, ARROW_CACHE_SCHEMA_VERSION};
use ewm_state_machine::cache::reading::{from_ipc, settle, single};
use ewm_state_machine::cache::schema::{
    hllset_lut_batch, lut_batch, lut_rows, sparse_slice_batch, sparse_slice_bits, tree_leaves_batch, tree_levels_batch,
    turns_batch, turns_rows,
};
use ewm_state_machine::digest::sha1_hex;
use ewm_state_machine::hllset::HLLSet;
use ewm_state_machine::lut::LutIndex;

fn sample_set(tokens: &[&str]) -> HLLSet {
    HLLSet::from_tokens(&tokens.iter().map(|t| t.as_bytes().to_vec()).collect())
}

#[test]
fn ipc_round_trips_are_byte_identical() {
    // Build → IPC → read → rebuild → IPC must be equal.
    let lut_rows_src = vec![
        (2u32, b"banana".to_vec()),
        (2u32, b"apple".to_vec()),
        (1u32, b"cherry".to_vec()),
    ];
    let batches = vec![
        hllset_lut_batch(&vec![
            ("G2".into(), "h:b".into(), 2),
            ("G1".into(), "h:a".into(), 1),
        ]),
        lut_batch(&lut_rows_src),
        tree_leaves_batch(&vec![
            ("h:b".into(), "l:1".into(), "v".into()),
            ("h:a".into(), "l:0".into(), "v".into()),
        ]),
        tree_levels_batch(&vec![(1, 1, "hh".into()), (0, 0, "h".into())]),
        turns_batch(&vec![(1, 2), (0, 1)]),
        sparse_slice_batch(&[7, 1, 7, 3]),
    ];

    for batch in batches {
        let bytes = to_ipc(&batch).unwrap();
        let read = from_ipc(&bytes).unwrap();
        assert_eq!(read, batch, "the rows come back");
        assert_eq!(
            to_ipc(&read).unwrap(),
            bytes,
            "IPC round-trip must be byte-identical"
        );
    }

    // And the readers decode canonically (rows sorted, deduped where the
    // schema says so).
    let sparse = sparse_slice_batch(&[7, 1, 7, 3]);
    assert_eq!(sparse_slice_bits(&sparse), vec![1, 3, 7]);

    let lut = lut_batch(&lut_rows_src);
    let mut rows = lut_rows(&lut);
    rows.sort();
    assert_eq!(
        rows,
        vec![
            (1, b"cherry".to_vec()),
            (2, b"apple".to_vec()),
            (2, b"banana".to_vec())
        ]
    );
}

#[test]
fn extended_cache_snapshots_validate_and_restore() {
    let mut cache = ExtendedCache::open("extended");
    assert_eq!(cache.dir(), "extended");

    // Content-addressed objects.
    let g1 = sample_set(&["apple", "banana"]);
    let g2 = sample_set(&["cherry"]);
    let g3 = sample_set(&["apple"]);
    let g1_key_before = g1.content_key();
    let sha1_g1 = cache.put_hllset(&g1);
    let sha1_g2 = cache.put_hllset(&g2);
    let sha1_g3 = cache.put_hllset(&g3);
    let tf_vec = vec![0.5f64.to_bits(); 32768];
    let sha1_tf = cache.put_tfvec(&tf_vec);

    // Tables.
    let lut = lut_batch(&vec![(1, b"apple".to_vec()), (2, b"banana".to_vec())]);
    let turns = turns_batch(&vec![(0, 1), (0, 2), (1, 3)]);
    let lut_sha1 = cache.write_table("ng:G1", &lut).unwrap();
    let turns_sha1 = cache.write_table("turns", &turns).unwrap();

    // Seal.
    let mut manifest = Manifest::new("tip-abc", "2026-09-16T00:00:00Z");
    manifest.schema_version = ARROW_CACHE_SCHEMA_VERSION;
    manifest.objects.insert("G1".to_string(), sha1_g1);
    manifest.objects.insert("G2".to_string(), sha1_g2);
    manifest.objects.insert("G3".to_string(), sha1_g3);
    manifest.objects.insert("tf_vec".to_string(), sha1_tf);
    manifest.tables.insert("ng:G1".to_string(), lut_sha1);
    manifest.tables.insert("turns".to_string(), turns_sha1);
    let (sealed, cid) = cache.seal(&manifest).unwrap();
    assert_eq!(sealed, manifest);
    assert!(cid.starts_with("c:"), "cache content key is c:<sha1>");
    assert_eq!(
        cid,
        content_key(&manifest.to_ipc().unwrap()),
        "content key is the SHA1 of the manifest bytes"
    );

    // Reopen and restore.
    let cache2 = cache.clone();
    let opened = cache2.open_manifest().unwrap().unwrap();
    assert_eq!(opened, manifest, "manifest round-trips exactly");
    let snap = cache2.snapshot(&opened).unwrap();

    assert_eq!(snap.hllsets.len(), 3);
    assert_eq!(
        snap.hllsets.get("G1").unwrap().content_key(),
        g1_key_before,
        "cache round-trip changes no h: key"
    );
    assert_eq!(snap.hllsets.get("G1").unwrap().popcount(), g1.popcount());
    assert_eq!(snap.tf_vec, Some(tf_vec));
    assert_eq!(snap.tables.len(), 2);
    assert_eq!(turns_rows(snap.tables.get("turns").unwrap()), vec![(0, 1), (0, 2), (1, 3)]);
}

#[test]
fn corruption_is_detected() {
    let mut cache = ExtendedCache::open("corrupt");
    let set = sample_set(&["apple"]);
    let sha1 = cache.put_hllset(&set);

    let mut manifest = Manifest::new("tip", "t");
    manifest
        .objects
        .insert("G1".to_string(), sha1.clone());
    cache.seal(&manifest).unwrap();
    assert!(cache.validate(&manifest).is_ok());

    // Tamper with the object bytes: validation must fail with ShaMismatch.
    cache.objects.insert(format!("{sha1}.hllset"), b"tampered".to_vec());
    let err = cache.validate(&manifest).unwrap_err();
    assert!(
        matches!(err, CacheError::ShaMismatch { .. }),
        "corruption detected: {}",
        err.message()
    );
    assert!(err.message().starts_with(&format!("sha mismatch for object G1: manifest {sha1}, found ")));

    // Wrong schema version is rejected outright.
    let mut bad = manifest.clone();
    bad.schema_version = 99;
    assert!(matches!(
        cache.seal(&bad),
        Err(CacheError::SchemaVersion { found: 99 })
    ));
    assert_eq!(cache.validate(&bad).unwrap_err().message(), "schema version 99 != soldered 1");
}

#[test]
fn hllset_keys_are_stable_across_the_cache() {
    let mut cache = ExtendedCache::open("keys");
    let set = sample_set(&["x", "y", "z"]);
    let key_before = set.content_key();
    let sha1 = cache.put_hllset(&set);
    let restored = cache.get_hllset(&sha1).unwrap();
    assert_eq!(restored.content_key(), key_before);
    assert_eq!(restored.content_key(), format!("h:{sha1}"));
}

#[test]
fn shared_lut_merges_and_materializes_without_a_live_ingest() {
    let mut cache = ExtendedCache::open("shared-lut");

    // Two ingests contribute fibers to the shared ns:G1 table.
    let mut a = LutIndex::new();
    a.insert_token_at(b"fin_a".to_vec(), 5);
    a.insert_token_at(b"fin_b".to_vec(), 5);
    let mut b = LutIndex::new();
    b.insert_token_at(b"fin_b".to_vec(), 5); // duplicate (bit, token) — deduped
    b.insert_token_at(b"med_x".to_vec(), 9);

    cache.merge_lut("ns:G1", &a).unwrap();
    cache.merge_lut("ns:G1", &b).unwrap();

    let batch = cache.read_table("ns:G1").unwrap().unwrap();
    let rows = lut_rows(&batch);
    assert_eq!(
        rows,
        vec![
            (5, b"fin_a".to_vec()),
            (5, b"fin_b".to_vec()),
            (9, b"med_x".to_vec()),
        ]
    );

    // Materialize a state HLLSet against the shared table — no live ingest.
    let mut state = HLLSet::new();
    state.add_bit(5);
    let tokens = cache.materialize_lut(&state, "ns:G1").unwrap();
    assert_eq!(tokens.len(), 2);
    assert!(tokens.contains(b"fin_a"));
    assert!(tokens.contains(b"fin_b"));
    assert!(!tokens.contains(b"med_x"));

    // A missing table is a clean error.
    assert!(matches!(
        cache.materialize_lut(&state, "ng:G1"),
        Err(CacheError::Missing { .. })
    ));
}

#[test]
fn merging_an_index_twice_adds_nothing() {
    let mut cache = ExtendedCache::open("twice");
    let mut a = LutIndex::new();
    a.insert_token_at(b"one".to_vec(), 1);
    let first = cache.merge_lut("t", &a).unwrap();
    let second = cache.merge_lut("t", &a).unwrap();
    assert_eq!(first, second);
}

#[test]
fn every_fault_of_a_manifest_is_named() {
    let mut cache = ExtendedCache::open("faults");
    let sha1 = cache.put_hllset(&sample_set(&["apple"]));

    let mut m = Manifest::new("tip", "t");
    m.objects.insert("G1".to_string(), sha1.clone());
    m.objects.insert("G9".to_string(), sha1.clone());
    assert_eq!(
        cache.validate(&m),
        Err(CacheError::BadManifest("unknown object logical name G9".to_string()))
    );

    let mut m = Manifest::new("tip", "t");
    m.objects.insert("tf_vec".to_string(), sha1.clone());
    assert_eq!(cache.validate(&m).unwrap_err().message(), "missing object: tf_vec");

    let mut m = Manifest::new("tip", "t");
    m.objects.insert("G2".to_string(), sha1);
    m.tables.insert("turns".to_string(), "0".repeat(40));
    assert_eq!(cache.validate(&m).unwrap_err().message(), "missing table: turns");
    assert!(matches!(cache.snapshot(&m), Err(CacheError::Missing { .. })));
    cache.write_table("turns", &turns_batch(&vec![(0, 1)])).unwrap();
    assert!(matches!(cache.validate(&m), Err(CacheError::ShaMismatch { .. })));
}

#[test]
fn an_object_that_is_no_set_is_missing() {
    let mut cache = ExtendedCache::open("odd");
    let bytes = vec![1u8, 2, 3];
    let sha1 = ewm_state_machine::digest::sha1_hex(&bytes);
    cache.objects.insert(format!("{sha1}.hllset"), bytes);
    let mut m = Manifest::new("tip", "t");
    m.objects.insert("G1".to_string(), sha1.clone());
    assert!(cache.validate(&m).is_ok(), "the digest is right");
    assert_eq!(cache.get_hllset(&sha1), None);
    assert_eq!(cache.snapshot(&m).unwrap_err().message(), "missing object: G1");
}

#[test]
fn manifests_are_read_from_their_entries() {
    let entry = |k: &str, v: &str| (k.to_string(), v.to_string());
    let m = Manifest::from_rows(&vec![
        entry("table:turns", "t1"),
        entry("object:G1", "o1"),
        entry("created_at", "now"),
        entry("tip", "abc"),
        entry("schema_version", "7"),
    ])
    .unwrap();
    assert_eq!(m.schema_version, 7);
    assert_eq!((m.tip.as_str(), m.created_at.as_str()), ("abc", "now"));
    assert_eq!(m.objects.get("G1"), Some(&"o1".to_string()));
    assert_eq!(m.tables.get("turns"), Some(&"t1".to_string()));
    assert_eq!(Manifest::from_rows(&m.rows()), Ok(m.clone()));
    assert_eq!(m.rows()[0], entry("created_at", "now"), "entries are sorted");

    let refused = |rows: Vec<(String, String)>| Manifest::from_rows(&rows).unwrap_err().message();
    assert_eq!(refused(vec![entry("tip", "abc")]), "bad manifest: missing schema_version");
    assert_eq!(refused(vec![entry("schema_version", "x")]), "bad manifest: schema_version not a u32: x");
    assert_eq!(refused(vec![entry("colour", "red")]), "bad manifest: unknown key colour");
}

#[test]
fn files_hold_one_batch() {
    assert_eq!(single(vec![5u8]), Ok(5));
    assert_eq!(single(Vec::<u8>::new()).unwrap_err().message(), "empty IPC stream");
    assert_eq!(single(vec![1u8, 2]).unwrap_err().message(), "multi-batch IPC stream (expected one)");
}

#[test]
fn a_batch_without_columns_cannot_be_written() {
    let empty = ewm_state_machine::cache::rows::Batch { fields: Vec::new(), rows: Vec::new() };
    assert!(matches!(to_ipc(&empty), Err(CacheError::Arrow(_))));
}

#[test]
fn a_manifest_needs_columns_of_texts() {
    assert_eq!(
        Manifest::from_batch(&turns_batch(&vec![(0, 1)])).unwrap_err().message(),
        "bad manifest: key column is not Utf8"
    );
    let half = hllset_lut_batch(&vec![("a".into(), "b".into(), 1)]);
    assert_eq!(Manifest::from_batch(&half).unwrap_err().message(), "bad manifest: unknown key a");
}

#[test]
fn bytes_without_the_magic_end_are_no_file() {
    assert!(matches!(from_ipc(&[]), Err(CacheError::Arrow(_))));
    assert!(matches!(from_ipc(b"no arrow file at all"), Err(CacheError::Arrow(_))));
    assert!(matches!(Manifest::from_ipc(b"nor a manifest"), Err(CacheError::Arrow(_))));

    let mut bytes = to_ipc(&turns_batch(&vec![(0, 1)])).unwrap();
    bytes.pop();
    assert!(matches!(from_ipc(&bytes), Err(CacheError::Arrow(_))));

    let mut cache = ExtendedCache::open("cache");
    cache.manifest = Some(bytes.clone());
    cache.tables.insert("turns".to_string(), bytes);
    assert!(matches!(cache.open_manifest(), Err(CacheError::Arrow(_))));
    assert!(matches!(cache.read_table("turns"), Err(CacheError::Arrow(_))));
    assert!(matches!(cache.merge_lut("turns", &LutIndex::new()), Err(CacheError::Arrow(_))));
    assert!(matches!(cache.read_table("other"), Ok(None)));
}

#[test]
fn rows_that_were_read_are_merged_and_selected() {
    let held = vec![(5u32, b"b".to_vec()), (5, b"b".to_vec()), (7, b"c".to_vec())];
    let mut index = LutIndex::new();
    index.insert_token_at(b"a".to_vec(), 5);
    index.insert_token_at(b"c".to_vec(), 7);

    let mut cache = ExtendedCache::open("rows");
    let sha1 = cache.write_merged("t", &held, &index).unwrap();
    assert_eq!(sha1, sha1_hex(cache.tables.get("t").unwrap()));
    let rows = lut_rows(&cache.read_table("t").unwrap().unwrap());
    assert_eq!(rows, vec![(5, b"a".to_vec()), (5, b"b".to_vec()), (7, b"c".to_vec())]);

    let mut set = HLLSet::new();
    set.add_bit(5);
    let tokens = select_rows(&set, &rows);
    assert_eq!(tokens.to_vec(), vec![b"a".to_vec(), b"b".to_vec()]);
    assert!(select_rows(&HLLSet::new(), &rows).is_empty());
}

#[test]
fn a_manifest_without_tables_is_restored() {
    let mut cache = ExtendedCache::open("no-tables");
    let set = sample_set(&["apple"]);
    let mut m = Manifest::new("tip", "t");
    m.objects.insert("G2".to_string(), cache.put_hllset(&set));
    m.objects.insert("tf_vec".to_string(), cache.put_tfvec(&[1, 2, 3]));
    let snap = cache.snapshot(&m).unwrap();
    assert_eq!(snap.hllsets.get("G2").unwrap().to_bytes(), set.to_bytes());
    assert_eq!(snap.tf_vec, Some(vec![1, 2, 3]));
    assert_eq!(snap.tables.len(), 0);
}

#[test]
fn a_batch_settles_as_itself() {
    let batch = turns_batch(&vec![(1, 2), (0, 1)]);
    let (bytes, read) = settle(&batch).unwrap();
    assert_eq!(bytes, to_ipc(&batch).unwrap());
    assert_eq!(read, batch);
    assert_eq!(turns_rows(&read), vec![(0, 1), (1, 2)]);
}
