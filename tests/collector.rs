use meta_bridge::collector::{records_of_directory, DirectoryQueue};

#[test]
fn claims_last_first_and_flags_the_drain() {
    let mut q = DirectoryQueue::new(vec!["a".to_string(), "b".to_string()]);
    assert_eq!(q.claim(), Some(("b".to_string(), false)));
    assert_eq!(q.claim(), Some(("a".to_string(), true)));
    assert_eq!(q.claim(), None);
    assert!(q.pending.is_empty());
}

#[test]
fn empty_queue_claims_nothing() {
    let mut q = DirectoryQueue::new(Vec::new());
    assert_eq!(q.claim(), None);
}

#[test]
fn directory_records_skip_sidecars_without_identity() {
    let entries = vec![
        ("a.png".to_string(), "fileFormatVersion: 2\nguid: A1\n".to_string()),
        ("b.png".to_string(), "fileFormatVersion: 2\n".to_string()),
        ("c.mat".to_string(), "guid: C3\nguid: C4\n".to_string()),
    ];
    let r = records_of_directory("Assets/Art", &entries);
    assert_eq!(r.len(), 2);
    assert_eq!(r[0].guid, "A1");
    assert_eq!(r[0].base_name, "a.png");
    assert_eq!(r[0].directory, "Assets/Art");
    assert_eq!(r[1].guid, "C3");
    assert_eq!(r[1].base_name, "c.mat");
}
