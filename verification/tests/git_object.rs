use ewm_state_machine::git::object::{Commit, Gx, Object, ObjectId};

#[test]
fn commit_serialization_roundtrip_with_three_trees() {
    let commit = Commit {
        trees: [
            ObjectId::of_bytes(b"g1"),
            ObjectId::of_bytes(b"g2"),
            ObjectId::of_bytes(b"g3"),
        ],
        tf: ObjectId::of_bytes(b"tf"),
        parents: vec![ObjectId::of_bytes(b"p1"), ObjectId::of_bytes(b"p2")],
        message: "merge".into(),
    };
    let bytes = commit.serialize();
    assert_eq!(Commit::deserialize(&bytes), Some(commit.clone()));
    assert_eq!(commit.id(), ObjectId::of_bytes(&bytes));
}

#[test]
fn blob_serialization_roundtrip() {
    let blob = Object::Blob(vec![1, 2, 3, 4]);
    let bytes = blob.serialize();
    assert_eq!(Object::deserialize(&bytes), Some(blob));
}

#[test]
fn gx_channels_index() {
    assert_eq!(Gx::G1.index(), 0);
    assert_eq!(Gx::G2.index(), 1);
    assert_eq!(Gx::G3.index(), 2);
    assert_eq!(Gx::all().len(), 3);
}

#[test]
fn commit_bytes_tell_commits_apart() {
    let id = |c: char| ObjectId(c.to_string().repeat(40));
    let base = Commit {
        trees: [id('x'), id('y'), id('z')],
        tf: id('-'),
        parents: vec![],
        message: "ab".into(),
    };
    let bytes = base.serialize();
    assert_eq!(bytes.len(), 176 + 2);
    assert!(bytes.starts_with(b"commit\0"));

    let one = Commit { parents: vec![id('p')], ..base.clone() };
    assert_eq!(one.serialize().len(), 176 + 40 + 2);
    let others = [
        Commit { trees: [id('y'), id('x'), id('z')], ..base.clone() },
        Commit { tf: id('+'), ..base.clone() },
        Commit { message: "ba".into(), ..base.clone() },
        one,
        Commit { parents: vec![id('q')], ..base.clone() },
        Commit { parents: vec![id('p'), id('q')], ..base.clone() },
        Commit { parents: vec![id('q'), id('p')], ..base.clone() },
    ];
    for (i, c) in others.iter().enumerate() {
        assert_ne!(c.serialize(), bytes);
        for d in &others[i + 1..] {
            assert_ne!(c.serialize(), d.serialize());
        }
    }
    assert_eq!(base.clone().serialize(), bytes);
}
