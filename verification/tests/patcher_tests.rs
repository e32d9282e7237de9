use butter_patcher::digest::{get_changed_paths, parse_listing, FileStore};
use butter_patcher::errors::PatchError;
use butter_patcher::manifest::Manifest;
use butter_patcher::patching::{
    backup_name, patch, reset_game_files, restore_server, rollback_files, stage, swap_files,
    Install, PatcherResponse,
};
use butter_patcher::store::PathTable;

fn sha256_hex(bytes: &[u8]) -> String {
    format!("{:x}", <sha2::Sha256 as sha2::Digest>::digest(bytes))
}

fn store_of(files: &[(&str, &[u8])]) -> FileStore {
    let mut fs = PathTable::new();
    for (p, b) in files {
        fs.insert_value(p, b.to_vec());
    }
    fs
}

#[test]
fn backup_name_appends_fixed_suffix() {
    assert_eq!(backup_name("foo/bar.txt"), "foo/bar.txt.butterold");
}

#[test]
fn error_codes_are_stable() {
    assert_eq!(PatchError::Network.code(), "patcher-network-error");
    assert_eq!(PatchError::File.code(), "patcher-file-error");
}

#[test]
fn listing_with_matching_digest_excludes_the_file() {
    // The digest of b"abc" is a published SHA-256 test vector; a wrapper that
    // did not really hash would not reproduce it.
    let listing = "ba7816bf8f01cfea414140de5dae2223b00361a396177a9cb410ff61f20015ad\tdata/a.txt";
    let fs = store_of(&[("data/a.txt", b"abc")]);
    let changed = get_changed_paths(listing, &fs).unwrap();
    assert!(changed.is_empty());
}

#[test]
fn listing_with_differing_or_missing_files_includes_them_in_order() {
    let listing = format!(
        "{}\ta.bin\n{}\tb.bin\n{}\tc.bin",
        sha256_hex(b"one"),
        sha256_hex(b"other"),
        sha256_hex(b"three"),
    );
    // a.bin matches, b.bin differs, c.bin is missing.
    let fs = store_of(&[("a.bin", b"one"), ("b.bin", b"changed")]);
    let changed = get_changed_paths(&listing, &fs).unwrap();
    assert_eq!(changed, vec!["b.bin".to_string(), "c.bin".to_string()]);
}

#[test]
fn empty_listing_changes_nothing() {
    let fs = store_of(&[("a.txt", b"x")]);
    assert_eq!(get_changed_paths("", &fs), Ok(vec![]));
}

#[test]
fn trailing_newline_does_not_add_an_entry() {
    let entries = parse_listing("abc\tx.txt\n").unwrap();
    assert_eq!(entries.len(), 1);
}

#[test]
fn swap_of_no_paths_leaves_an_empty_manifest() {
    let mut install = store_of(&[("a.txt", b"x")]);
    let mut staging = store_of(&[]);
    let mut manifest = Manifest::default();
    swap_files(&vec![], &mut staging, &mut install, &mut manifest).unwrap();
    assert!(manifest.modified_files.is_empty());
    assert!(manifest.added_files.is_empty());
    assert_eq!(install.get_value("a.txt"), Some(&b"x".to_vec()));
}

#[test]
fn listing_line_without_tab_is_a_network_error() {
    let fs = store_of(&[]);
    let r = get_changed_paths("deadbeef no-tab-here", &fs);
    assert_eq!(r, Err(PatchError::Network));
}

#[test]
fn listing_paths_lose_their_leading_slashes() {
    let entries = parse_listing("abc\t/data/a.txt").unwrap();
    assert_eq!(entries.len(), 1);
    assert_eq!(entries[0].path, "data/a.txt");
    assert_eq!(entries[0].digest, "abc");
}

#[test]
fn stage_writes_files_and_honours_cancellation() {
    let mut staging = PathTable::new();
    let fetched = vec![
        ("a.bin".to_string(), b"A".to_vec()),
        ("b.bin".to_string(), b"B".to_vec()),
        ("c.bin".to_string(), b"C".to_vec()),
    ];
    let done = stage(&mut staging, &fetched, Some(2));
    assert_eq!(done, 2);
    assert!(staging.contains_path("a.bin"));
    assert!(staging.contains_path("b.bin"));
    assert!(!staging.contains_path("c.bin"));

    let done_all = stage(&mut staging, &fetched, None);
    assert_eq!(done_all, 3);
    assert_eq!(staging.get_value("c.bin"), Some(&b"C".to_vec()));
}

#[test]
fn swap_backs_up_overwritten_files_and_records_added_ones() {
    let mut install = store_of(&[("data/a.txt", b"old-a")]);
    let mut staging = store_of(&[("data/a.txt", b"new-a"), ("data/b.txt", b"new-b")]);
    let changed = vec!["data/a.txt".to_string(), "data/b.txt".to_string()];
    let mut manifest = Manifest::default();
    swap_files(&changed, &mut staging, &mut install, &mut manifest).unwrap();

    assert_eq!(manifest.modified_files, vec!["data/a.txt".to_string()]);
    assert_eq!(manifest.added_files, vec!["data/b.txt".to_string()]);
    assert_eq!(install.get_value("data/a.txt"), Some(&b"new-a".to_vec()));
    assert_eq!(install.get_value("data/a.txt.butterold"), Some(&b"old-a".to_vec()));
    assert_eq!(install.get_value("data/b.txt"), Some(&b"new-b".to_vec()));
    assert!(!staging.contains_path("data/a.txt"));
}

#[test]
fn rollback_restores_prepatch_bytes_and_deletes_added_files() {
    // Round-trip: stage + swap, then roll the manifest back.
    let mut install = store_of(&[("data/a.txt", b"old-a"), ("keep.txt", b"keep")]);
    let mut staging = PathTable::new();
    let fetched = vec![
        ("data/a.txt".to_string(), b"new-a".to_vec()),
        ("data/b.txt".to_string(), b"new-b".to_vec()),
    ];
    stage(&mut staging, &fetched, None);
    let changed = vec!["data/a.txt".to_string(), "data/b.txt".to_string()];
    let mut manifest = Manifest::default();
    swap_files(&changed, &mut staging, &mut install, &mut manifest).unwrap();

    rollback_files(&manifest, &mut install);
    assert_eq!(install.get_value("data/a.txt"), Some(&b"old-a".to_vec()));
    assert!(!install.contains_path("data/b.txt"));
    assert!(!install.contains_path("data/a.txt.butterold"));
    assert_eq!(install.get_value("keep.txt"), Some(&b"keep".to_vec()));
}

#[test]
fn partial_swap_keeps_a_manifest_that_rolls_back_exactly_the_done_files() {
    // The staging area lacks the third changed file: the swap fails after
    // two files were moved and the third was backed up.
    let mut install = store_of(&[
        ("a.txt", b"old-a"),
        ("b.txt", b"old-b"),
        ("c.txt", b"old-c"),
    ]);
    let mut staging = store_of(&[("a.txt", b"new-a"), ("b.txt", b"new-b")]);
    let changed = vec!["a.txt".to_string(), "b.txt".to_string(), "c.txt".to_string()];
    let mut manifest = Manifest::default();
    let r = swap_files(&changed, &mut staging, &mut install, &mut manifest);
    assert_eq!(r, Err(PatchError::File));

    // Every path processed so far is in the manifest, the failing one included.
    assert_eq!(
        manifest.modified_files,
        vec!["a.txt".to_string(), "b.txt".to_string(), "c.txt".to_string()]
    );
    assert_eq!(manifest.added_files, Vec::<String>::new());
    assert_eq!(install.get_value("a.txt"), Some(&b"new-a".to_vec()));
    assert_eq!(install.get_value("b.txt"), Some(&b"new-b".to_vec()));
    // The failing file was renamed to its backup and nothing replaced it.
    assert!(!install.contains_path("c.txt"));
    assert_eq!(install.get_value("c.txt.butterold"), Some(&b"old-c".to_vec()));

    // Rolling the partial manifest back restores the pre-patch state exactly.
    rollback_files(&manifest, &mut install);
    assert_eq!(install.get_value("a.txt"), Some(&b"old-a".to_vec()));
    assert_eq!(install.get_value("b.txt"), Some(&b"old-b".to_vec()));
    assert_eq!(install.get_value("c.txt"), Some(&b"old-c".to_vec()));
    assert!(!install.contains_path("a.txt.butterold"));
    assert!(!install.contains_path("c.txt.butterold"));
}

#[test]
fn rollback_without_backup_skips_the_file() {
    let mut install = store_of(&[("a.txt", b"current")]);
    let mut manifest = Manifest::default();
    manifest.modified_files.push("a.txt".to_string());
    rollback_files(&manifest, &mut install);
    // No backup on disk: the file is treated as already restored.
    assert_eq!(install.get_value("a.txt"), Some(&b"current".to_vec()));
}

#[test]
fn restore_server_twice_is_a_no_op_the_second_time() {
    let mut inst = Install::new(store_of(&[("a.txt", b"patched")]));
    let mut manifest = Manifest::default();
    manifest.added_files.push("a.txt".to_string());
    inst.manifests.insert_value("srv", manifest);

    restore_server(&mut inst, "srv");
    assert!(!inst.files.contains_path("a.txt"));
    assert!(!inst.manifests.contains_path("srv"));

    restore_server(&mut inst, "srv");
    assert!(!inst.files.contains_path("a.txt"));
    assert!(!inst.manifests.contains_path("srv"));
}

#[test]
fn reset_rolls_back_the_marked_server_and_clears_the_marker() {
    let mut inst = Install::new(store_of(&[("a.txt", b"patched")]));
    let mut manifest = Manifest::default();
    manifest.added_files.push("a.txt".to_string());
    inst.manifests.insert_value("srv", manifest);
    inst.active_server = "srv".to_string();

    reset_game_files(&mut inst);
    assert_eq!(inst.active_server, "");
    assert!(!inst.files.contains_path("a.txt"));

    // Idempotent: a second reset finds a pristine installation.
    reset_game_files(&mut inst);
    assert_eq!(inst.active_server, "");
    assert!(!inst.files.contains_path("a.txt"));
}

#[test]
fn version_gate_skips_work_but_still_updates_the_marker() {
    let mut inst = Install::new(store_of(&[("a.txt", b"bytes")]));
    inst.local_version = "1.2".to_string();
    let resp = PatcherResponse {
        content: "malformed listing without a tab".to_string(),
        server_name: "srv".to_string(),
    };
    let remote = Some(" 1.2 \n".to_string());
    let mut staging = PathTable::new();
    // With equal trimmed versions the malformed listing is never consulted.
    let r = patch(&mut inst, &resp, remote.as_ref(), &mut staging);
    assert_eq!(r, Ok(()));
    assert_eq!(inst.active_server, "srv");
    assert_eq!(inst.local_version, "1.2");
    assert_eq!(inst.files.get_value("a.txt"), Some(&b"bytes".to_vec()));
    assert!(!inst.manifests.contains_path("srv"));
}

#[test]
fn failed_version_fetch_forces_a_full_pass() {
    let mut inst = Install::new(store_of(&[]));
    inst.local_version = "".to_string();
    let listing = format!("{}\ta.txt", sha256_hex(b"A"));
    let resp = PatcherResponse { content: listing, server_name: "srv".to_string() };
    let mut staging = store_of(&[("a.txt", b"A")]);
    let r = patch(&mut inst, &resp, None, &mut staging);
    assert_eq!(r, Ok(()));
    assert_eq!(inst.files.get_value("a.txt"), Some(&b"A".to_vec()));
    assert_eq!(inst.local_version, "");
    assert_eq!(inst.active_server, "srv");
}

#[test]
fn patching_a_new_server_first_restores_the_old_one() {
    // Server A added a.txt and overwrote shared.txt; the marker names A.
    let mut inst = Install::new(store_of(&[
        ("shared.txt", b"a-version"),
        ("shared.txt.butterold", b"pristine"),
        ("a.txt", b"from-a"),
    ]));
    let mut m_a = Manifest::default();
    m_a.modified_files.push("shared.txt".to_string());
    m_a.added_files.push("a.txt".to_string());
    inst.manifests.insert_value("server-a", m_a);
    inst.active_server = "server-a".to_string();
    inst.local_version = "old".to_string();

    // Server B ships b.txt and a new shared.txt; its digests never match.
    let listing = format!(
        "{}\tshared.txt\n{}\tb.txt",
        sha256_hex(b"b-version"),
        sha256_hex(b"from-b"),
    );
    let resp = PatcherResponse { content: listing, server_name: "server-b".to_string() };
    let mut staging = store_of(&[
        ("shared.txt", b"b-version"),
        ("b.txt", b"from-b"),
    ]);
    let remote = Some("2".to_string());
    let r = patch(&mut inst, &resp, remote.as_ref(), &mut staging);
    assert_eq!(r, Ok(()));

    // A's effects were rolled back before B's files went in: a.txt is gone,
    // and the backup of shared.txt holds the pristine bytes, not A's.
    assert!(!inst.files.contains_path("a.txt"));
    assert_eq!(inst.files.get_value("shared.txt"), Some(&b"b-version".to_vec()));
    assert_eq!(
        inst.files.get_value("shared.txt.butterold"),
        Some(&b"pristine".to_vec())
    );
    assert!(!inst.manifests.contains_path("server-a"));
    assert!(inst.manifests.contains_path("server-b"));
    assert_eq!(inst.active_server, "server-b");
    assert_eq!(inst.local_version, "2");

    // Rolling B back returns the pristine installation.
    restore_server(&mut inst, "server-b");
    assert_eq!(inst.files.get_value("shared.txt"), Some(&b"pristine".to_vec()));
    assert!(!inst.files.contains_path("b.txt"));
}

#[test]
fn patch_scenario_with_one_matching_and_one_missing_file() {
    // The digest listing names two files; the first matches its local bytes,
    // the second does not exist locally.
    let a_bytes: &[u8] = b"alpha-content";
    let listing = format!(
        "{}\tdata/a.txt\n{}\tdata/b.txt",
        sha256_hex(a_bytes),
        sha256_hex(b"beta-content"),
    );
    let fs = store_of(&[("data/a.txt", a_bytes)]);
    let changed = get_changed_paths(&listing, &fs).unwrap();
    assert_eq!(changed, vec!["data/b.txt".to_string()]);

    // Stage and swap the single changed file.
    let mut install = fs;
    let mut staging = PathTable::new();
    stage(
        &mut staging,
        &vec![("data/b.txt".to_string(), b"beta-content".to_vec())],
        None,
    );
    let mut manifest = Manifest::default();
    swap_files(&changed, &mut staging, &mut install, &mut manifest).unwrap();
    assert_eq!(manifest.added_files, vec!["data/b.txt".to_string()]);
    assert_eq!(manifest.modified_files, Vec::<String>::new());

    // Rollback deletes data/b.txt and leaves data/a.txt untouched.
    rollback_files(&manifest, &mut install);
    assert!(!install.contains_path("data/b.txt"));
    assert_eq!(install.get_value("data/a.txt"), Some(&a_bytes.to_vec()));
}
