use meta_bridge::meta_file::MetaFile;
use meta_bridge::reconcile::reconcile;
use meta_bridge::rewrite::{file_name, padded_token, rewrite_text, CopyJob, Rewriter, TOKEN_WIDTH};

fn record(dir: &str, name: &str, id: &str) -> MetaFile {
    MetaFile::from_contents(dir, name, &format!("guid: {}\n", id)).unwrap()
}

fn token(id: &str) -> String {
    format!("{:<32}", id)
}

#[test]
fn remapped_reference_is_replaced_in_place() {
    let r = reconcile(&vec![record("S", "foo", "A1")], &vec![record("D", "foo", "B2")]);
    let doc = format!("m_Script: {{fileID: 1, guid: {}, type: 3}}\n", token("A1"));
    let (out, fwd) = rewrite_text(&doc, &r);
    assert_eq!(out, format!("m_Script: {{fileID: 1, guid: {}, type: 3}}\n", token("B2")));
    assert_eq!(out.len(), doc.len());
    assert!(fwd.is_empty());
}

#[test]
fn missing_reference_is_kept_and_forwarded() {
    let r = reconcile(&vec![record("Src/Art", "bar", "C3")], &Vec::new());
    let doc = format!("ref: {{guid: {}}}", token("C3"));
    let (out, fwd) = rewrite_text(&doc, &r);
    assert_eq!(out, doc);
    assert_eq!(fwd.len(), 1);
    assert_eq!(fwd[0].guid, "C3");
    assert_eq!(fwd[0].directory, "Src/Art");
}

#[test]
fn unknown_reference_is_untouched() {
    let r = reconcile(&vec![record("S", "foo", "A1")], &vec![record("D", "foo", "B2")]);
    let doc = format!("guid: {}\nguid: {}", token("0000000000000000e000000000000000"), token("A1"));
    let (out, fwd) = rewrite_text(&doc, &r);
    assert_eq!(
        out,
        format!("guid: {}\nguid: {}", token("0000000000000000e000000000000000"), token("B2"))
    );
    assert!(fwd.is_empty());
}

#[test]
fn marker_without_whole_token_is_plain_text() {
    let r = reconcile(&vec![record("S", "foo", "A1")], &vec![record("D", "foo", "B2")]);
    let doc = "tail guid: A1".to_string();
    let (out, fwd) = rewrite_text(&doc, &r);
    assert_eq!(out, doc);
    assert!(fwd.is_empty());
}

#[test]
fn text_without_references_is_unchanged() {
    let r = reconcile(&Vec::new(), &Vec::new());
    let (out, fwd) = rewrite_text("plain text, no marker\n", &r);
    assert_eq!(out, "plain text, no marker\n");
    assert!(fwd.is_empty());
    let (out, _) = rewrite_text("", &r);
    assert_eq!(out, "");
}

#[test]
fn padded_token_fills_width() {
    let t = padded_token(&"B2".to_string());
    assert_eq!(t.len(), TOKEN_WIDTH);
    assert_eq!(t, token("B2"));
    let full = "0123456789abcdef0123456789abcdef".to_string();
    assert_eq!(padded_token(&full), full);
}

#[test]
fn file_name_takes_last_component() {
    assert_eq!(file_name("Assets/Prefabs/Door.prefab"), "Door.prefab");
    assert_eq!(file_name("Door.prefab"), "Door.prefab");
}

#[test]
fn copy_steps_skip_existing_targets() {
    let m = record("Src/Art", "bar.png", "C3");
    let job = CopyJob::for_record(&m, &"Export".to_string());
    assert_eq!(job.asset_from, "Src/Art/bar.png");
    assert_eq!(job.asset_to, "Export/bar.png");
    assert_eq!(job.sidecar_from, "Src/Art/bar.png.meta");
    assert_eq!(job.sidecar_to, "Export/bar.png.meta");
    assert_eq!(job.steps(false, false).len(), 2);
    assert_eq!(
        job.steps(false, true),
        vec![("Src/Art/bar.png".to_string(), "Export/bar.png".to_string())]
    );
    assert_eq!(
        job.steps(true, false),
        vec![("Src/Art/bar.png.meta".to_string(), "Export/bar.png.meta".to_string())]
    );
    assert!(job.steps(true, true).is_empty());
}

#[test]
fn worklist_takes_each_path_once_last_first() {
    let r = reconcile(&Vec::new(), &Vec::new());
    let mut w = Rewriter::new(r, "Export".to_string(), vec![".prefab".to_string()]);
    assert!(w.enqueue("a.prefab".to_string()));
    assert!(w.enqueue("b.prefab".to_string()));
    assert!(!w.enqueue("a.prefab".to_string()));
    assert_eq!(w.next_document(), Some("b.prefab".to_string()));
    assert!(!w.enqueue("b.prefab".to_string()));
    assert_eq!(w.next_document(), Some("a.prefab".to_string()));
    assert_eq!(w.next_document(), None);
}

#[test]
fn missing_document_is_queued_once_from_two_documents() {
    let src = vec![record("Src/Prefabs", "Door.prefab", "D1"), record("Src/Art", "bar.png", "C3")];
    let r = reconcile(&src, &Vec::new());
    let mut w = Rewriter::new(r, "Export".to_string(), vec![".prefab".to_string()]);
    w.enqueue("Src/Scenes/One.unity".to_string());
    w.enqueue("Src/Scenes/Two.unity".to_string());
    let doc = format!("a: {{guid: {}}}\nb: {{guid: {}}}\n", token("D1"), token("C3"));

    let first = w.next_document().unwrap();
    assert_eq!(first, "Src/Scenes/Two.unity");
    let plan = w.process(&first, &doc);
    assert_eq!(plan.output_path, "Export/Two.unity");
    assert_eq!(plan.text, doc);
    assert_eq!(plan.copies.len(), 2);
    assert_eq!(plan.copies[0].asset_from, "Src/Prefabs/Door.prefab");
    assert_eq!(plan.copies[0].asset_to, "Export/Door.prefab");
    assert_eq!(plan.copies[1].sidecar_to, "Export/bar.png.meta");

    let second = w.next_document().unwrap();
    assert_eq!(second, "Src/Prefabs/Door.prefab");
    let third = w.next_document().unwrap();
    assert_eq!(third, "Src/Scenes/One.unity");
    let plan = w.process(&third, &doc);
    assert_eq!(plan.copies.len(), 2);
    assert_eq!(w.next_document(), None);
    assert_eq!(
        w.queued,
        vec![
            "Src/Scenes/One.unity".to_string(),
            "Src/Scenes/Two.unity".to_string(),
            "Src/Prefabs/Door.prefab".to_string()
        ]
    );
}

#[test]
fn process_rewrites_remapped_references() {
    let r = reconcile(&vec![record("S", "foo", "A1")], &vec![record("D", "foo", "B2")]);
    let mut w = Rewriter::new(r, "Out/".to_string(), vec![".prefab".to_string()]);
    let plan = w.process("S/Level.unity", &format!("guid: {}", token("A1")));
    assert_eq!(plan.output_path, "Out/Level.unity");
    assert_eq!(plan.text, format!("guid: {}", token("B2")));
    assert!(plan.copies.is_empty());
    assert!(w.pending.is_empty());
}
