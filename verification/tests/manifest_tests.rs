use butter_patcher::manifest::{encode_manifest, parse_manifest, Manifest};

#[test]
fn manifest_path_is_keyed_by_server_under_the_manifest_dir() {
    assert_eq!(
        Manifest::path("root", "srv"),
        "root/ButterClient/Manifests/srv.json"
    );
}

#[test]
fn manifest_encode_parse_round_trip() {
    let mut m = Manifest::default();
    m.modified_files.push("data/a.txt".to_string());
    m.modified_files.push("dir with space/b.bin".to_string());
    m.added_files.push("new/c.dat".to_string());
    let text = encode_manifest(&m);
    let back = parse_manifest(&text);
    assert_eq!(back.modified_files, m.modified_files);
    assert_eq!(back.added_files, m.added_files);
}

#[test]
fn empty_manifest_encodes_to_empty_text() {
    let m = Manifest::default();
    assert_eq!(encode_manifest(&m), "");
    let back = parse_manifest("");
    assert!(back.modified_files.is_empty());
    assert!(back.added_files.is_empty());
}

#[test]
fn corrupt_manifest_text_reads_as_empty() {
    let back = parse_manifest("modified\tok.txt\ngarbage without a tab\n");
    assert!(back.modified_files.is_empty());
    assert!(back.added_files.is_empty());

    let unknown_tag = parse_manifest("renamed\tx.txt\n");
    assert!(unknown_tag.modified_files.is_empty());
    assert!(unknown_tag.added_files.is_empty());
}

#[test]
fn manifest_lines_interleave_without_mixing_the_lists() {
    let text = "added\tx.txt\nmodified\ty.txt\nadded\tz.txt\n";
    let m = parse_manifest(text);
    assert_eq!(m.modified_files, vec!["y.txt".to_string()]);
    assert_eq!(m.added_files, vec!["x.txt".to_string(), "z.txt".to_string()]);
}
