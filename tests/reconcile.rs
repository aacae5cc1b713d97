use meta_bridge::meta_file::MetaFile;
use meta_bridge::reconcile::{classify, reconcile, Placement};

fn record(dir: &str, name: &str, id: &str) -> MetaFile {
    MetaFile::from_contents(dir, name, &format!("fileFormatVersion: 2\nguid: {}\n", id)).unwrap()
}

fn ids(v: &[MetaFile]) -> Vec<String> {
    v.iter().map(|m| m.guid.clone()).collect()
}

#[test]
fn renamed_record_is_remapped() {
    let src = vec![record("Src", "foo", "A1")];
    let dst = vec![record("Dst", "foo", "B2")];
    let r = reconcile(&src, &dst);
    assert!(r.missing.is_empty());
    assert_eq!(r.remap.len(), 1);
    assert_eq!(r.remap[0].source, "A1");
    assert_eq!(r.remap[0].target.guid, "B2");
    assert_eq!(r.remap[0].target.directory, "Dst");
}

#[test]
fn absent_record_is_missing() {
    let src = vec![record("Src", "bar", "C3")];
    let dst: Vec<MetaFile> = vec![];
    let r = reconcile(&src, &dst);
    assert_eq!(ids(&r.missing), vec!["C3".to_string()]);
    assert!(r.remap.is_empty());
}

#[test]
fn catalog_against_itself() {
    let a = vec![
        record("S", "x", "A1"),
        record("S", "x", "A2"),
        record("S", "y", "A3"),
    ];
    let r = reconcile(&a, &a);
    assert!(r.missing.is_empty());
    assert!(r.remap.is_empty());
}

#[test]
fn catalog_against_empty() {
    let a = vec![record("S", "x", "A1"), record("S", "y", "A2"), record("S", "z", "A3")];
    let r = reconcile(&a, &Vec::new());
    assert_eq!(ids(&r.missing), vec!["A1".to_string(), "A2".to_string(), "A3".to_string()]);
    assert!(r.remap.is_empty());
}

#[test]
fn identity_wins_over_earlier_content_match() {
    let s = record("S", "foo", "A1");
    let dst = vec![record("D", "foo", "B2"), record("D", "other", "A1")];
    assert_eq!(classify(&s, &dst), Placement::Present);
    let r = reconcile(&vec![s], &dst);
    assert!(r.missing.is_empty());
    assert!(r.remap.is_empty());
}

#[test]
fn first_content_match_wins() {
    let s = record("S", "foo", "A1");
    let dst = vec![
        record("D", "bar", "B1"),
        record("D1", "foo", "B2"),
        record("D2", "foo", "B3"),
    ];
    assert_eq!(classify(&s, &dst), Placement::Renamed(1));
    let r = reconcile(&vec![s], &dst);
    assert_eq!(r.remap[0].target.guid, "B2");
    assert_eq!(r.remap[0].target.directory, "D1");
}

#[test]
fn equal_fingerprint_alone_is_no_match() {
    let s = record("S", "foo", "A1");
    let mut forged = record("D", "other", "ZZ");
    forged.guid_hash = s.guid_hash;
    assert_eq!(classify(&s, &vec![forged]), Placement::Missing);
}

#[test]
fn distinct_identities_do_not_match() {
    let a = record("S", "foo", "A1");
    let b = record("S", "bar", "A2");
    assert_ne!(a.guid_hash, b.guid_hash);
    assert_eq!(classify(&a, &vec![b]), Placement::Missing);
}

#[test]
fn shared_source_identity_gets_one_entry() {
    let src = vec![record("S", "foo", "A1"), record("S2", "bar", "A1")];
    let dst = vec![record("D", "foo", "B1"), record("D", "bar", "B2")];
    let r = reconcile(&src, &dst);
    assert_eq!(r.remap.len(), 1);
    assert_eq!(r.remap[0].target.guid, "B1");
    assert!(r.missing.is_empty());
}

#[test]
fn mixed_catalog_outcome() {
    let src = vec![
        record("S", "kept", "K1"),
        record("S", "moved", "M1"),
        record("S", "gone", "G1"),
        record("S", "gone2", "G2"),
    ];
    let dst = vec![record("D", "kept2", "K1"), record("D", "moved", "N1")];
    let r = reconcile(&src, &dst);
    assert_eq!(ids(&r.missing), vec!["G1".to_string(), "G2".to_string()]);
    assert_eq!(r.remap.len(), 1);
    assert_eq!(r.remap[0].source, "M1");
    assert_eq!(r.remap[0].target.guid, "N1");
}
