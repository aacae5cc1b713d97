use meta_bridge::meta_file::{fingerprint, join_path, parse_identity, sidecar_stem, MetaFile};

#[test]
fn parse_identity_reads_first_marker_line() {
    let text = "fileFormatVersion: 2\nguid: 0123456789abcdef0123456789abcdef\nguid: ffff\n";
    assert_eq!(
        parse_identity(text),
        Some("0123456789abcdef0123456789abcdef".to_string())
    );
}

#[test]
fn parse_identity_trims_value_and_line_end() {
    assert_eq!(parse_identity("guid:   abc  \r\nnext: 1"), Some("abc".to_string()));
    assert_eq!(parse_identity("  guid: xyz"), Some("xyz".to_string()));
}

#[test]
fn parse_identity_without_marker_or_value() {
    assert_eq!(parse_identity("fileFormatVersion: 2\nfolderAsset: yes\n"), None);
    assert_eq!(parse_identity("guid:\n"), None);
    assert_eq!(parse_identity("guid:    \nguid: later"), None);
    assert_eq!(parse_identity(""), None);
}

#[test]
fn sidecar_stem_strips_extension() {
    assert_eq!(sidecar_stem("Texture.png.meta"), Some("Texture.png".to_string()));
    assert_eq!(sidecar_stem("Folder.meta"), Some("Folder".to_string()));
    assert_eq!(sidecar_stem(".meta"), None);
    assert_eq!(sidecar_stem("Texture.png"), None);
    assert_eq!(sidecar_stem("meta"), None);
}

#[test]
fn join_path_cases() {
    assert_eq!(join_path("Assets/Art", "a.png"), "Assets/Art/a.png");
    assert_eq!(join_path("Assets/Art/", "a.png"), "Assets/Art/a.png");
    assert_eq!(join_path("", "a.png"), "a.png");
    assert_eq!(join_path("Assets", "/abs/a.png"), "/abs/a.png");
}

#[test]
fn fingerprint_is_a_function_of_the_string() {
    assert_eq!(fingerprint("A1"), fingerprint("A1"));
    assert_ne!(fingerprint("A1"), fingerprint("B2"));
}

#[test]
fn from_contents_builds_record() {
    let m = MetaFile::from_contents("Assets/Art", "a.png", "fileFormatVersion: 2\nguid: A1\n")
        .unwrap();
    assert_eq!(m.directory, "Assets/Art");
    assert_eq!(m.base_name, "a.png");
    assert_eq!(m.guid, "A1");
    assert_eq!(m.guid_hash, fingerprint("A1"));
    assert_eq!(m.base_hash, fingerprint("a.png"));
}

#[test]
fn from_contents_without_identity_yields_nothing() {
    assert!(MetaFile::from_contents("Assets", "a.png", "fileFormatVersion: 2\n").is_none());
}

#[test]
fn get_paths_and_get_paths_stem() {
    let m = MetaFile::from_contents("Assets/Art", "a.png", "guid: A1").unwrap();
    assert_eq!(
        m.get_paths(),
        ("Assets/Art/a.png".to_string(), "Assets/Art/a.png.meta".to_string())
    );
    assert_eq!(
        m.get_paths_stem(&"Export".to_string()),
        ("Export/a.png".to_string(), "Export/a.png.meta".to_string())
    );
    assert_eq!(
        m.get_paths_stem(&"Export/".to_string()),
        ("Export/a.png".to_string(), "Export/a.png.meta".to_string())
    );
}

#[test]
fn clone_keeps_every_field() {
    let m = MetaFile::from_contents("Assets", "a.png", "guid: A1").unwrap();
    let c = m.clone();
    assert_eq!(c.directory, m.directory);
    assert_eq!(c.base_name, m.base_name);
    assert_eq!(c.guid, m.guid);
    assert_eq!(c.guid_hash, m.guid_hash);
    assert_eq!(c.base_hash, m.base_hash);
}

#[test]
fn parse_identity_trims_unicode_whitespace() {
    assert_eq!(parse_identity("guid: a\u{0B}\n"), Some("a".to_string()));
    assert_eq!(parse_identity("guid: a\u{A0}"), Some("a".to_string()));
    assert_eq!(parse_identity("guid: \u{3000}a\u{2003}\u{0B}\u{A0}\r\n"), Some("a".to_string()));
    assert_eq!(parse_identity("guid: \u{0B}\u{0B}\nguid: later"), None);
    assert!(MetaFile::from_contents("Assets", "a.png", "guid: \u{0B}\u{0B}").is_none());
}

#[test]
fn parse_identity_trims_as_str_trim_does() {
    let spaces = [
        '\t', '\n', '\u{0B}', '\u{0C}', '\r', ' ', '\u{85}', '\u{A0}', '\u{1680}', '\u{2000}',
        '\u{2005}', '\u{200A}', '\u{2028}', '\u{2029}', '\u{202F}', '\u{205F}', '\u{3000}',
        '\u{200B}', '\u{FEFF}', 'x',
    ];
    for c in spaces {
        let value = format!("{}id{}", c, c);
        let expected = value.trim().to_string();
        let line = value.split('\n').next().unwrap().trim().to_string();
        let got = parse_identity(&format!("guid: {}", value));
        let want = if line.is_empty() { None } else { Some(line) };
        assert_eq!(got, want, "char {:?}", c);
        if c != '\n' {
            assert_eq!(got, Some(expected));
        }
    }
}
