use butter_patcher::ini::{apply_game_settings, IniFile};

#[test]
fn test_parse_windows_line_endings() {
    let content = "[SCREEN]\r\nFULLSCREEN_MODE=1\r\nWINDOW_RESOLUTION_W=1280\r\n";
    let ini = IniFile::parse(content).unwrap();

    assert_eq!(ini.line_ending, "\r\n");
    assert_eq!(ini.get("SCREEN", "FULLSCREEN_MODE"), Some("1".to_string()));
}

#[test]
fn test_parse_unix_line_endings() {
    let content = "[SCREEN]\nFULLSCREEN_MODE=1\nWINDOW_RESOLUTION_W=1280\n";
    let ini = IniFile::parse(content).unwrap();

    assert_eq!(ini.line_ending, "\n");
    assert_eq!(ini.get("SCREEN", "FULLSCREEN_MODE"), Some("1".to_string()));
}

#[test]
fn test_modify_values() {
    let content = "[VIDEO]\r\nGRAPHICS_VER=0\r\n";
    let mut ini = IniFile::parse(content).unwrap();

    ini.set("VIDEO", "GRAPHICS_VER", "1");
    assert_eq!(ini.get("VIDEO", "GRAPHICS_VER"), Some("1".to_string()));
}

#[test]
fn test_parse_skips_comments_and_blanks() {
    let content = "; a comment\n# another\n\n[A]\nk=v\n";
    let ini = IniFile::parse(content).unwrap();
    assert_eq!(ini.get("A", "k"), Some("v".to_string()));
    assert_eq!(ini.get("A", "; a comment"), None);
}

#[test]
fn test_parse_trims_keys_and_values() {
    let content = "[A]\n  key =  value with spaces  \n";
    let ini = IniFile::parse(content).unwrap();
    assert_eq!(ini.get("A", "key"), Some("value with spaces".to_string()));
}

#[test]
fn test_pairs_before_any_section_are_dropped() {
    let content = "k=v\n[A]\nk=w\n";
    let ini = IniFile::parse(content).unwrap();
    assert_eq!(ini.get("A", "k"), Some("w".to_string()));
    assert_eq!(ini.get("", "k"), None);
}

#[test]
fn test_get_missing_section_or_key() {
    let content = "[A]\nk=v\n";
    let ini = IniFile::parse(content).unwrap();
    assert_eq!(ini.get("B", "k"), None);
    assert_eq!(ini.get("A", "missing"), None);
}

#[test]
fn test_set_appends_new_section_and_key() {
    let content = "[A]\nk=v\n";
    let mut ini = IniFile::parse(content).unwrap();
    ini.set("B", "x", "1");
    ini.set("A", "y", "2");
    assert_eq!(ini.get("B", "x"), Some("1".to_string()));
    assert_eq!(ini.get("A", "y"), Some("2".to_string()));
    assert_eq!(ini.get("A", "k"), Some("v".to_string()));
}

#[test]
fn test_render_preserves_line_ending() {
    let content = "[A]\r\nk=v\r\n";
    let ini = IniFile::parse(content).unwrap();
    assert_eq!(ini.render(), "[A]\r\nk=v\r\n");

    let content_unix = "[A]\nk=v\n";
    let ini_unix = IniFile::parse(content_unix).unwrap();
    assert_eq!(ini_unix.render(), "[A]\nk=v\n");
}

#[test]
fn test_render_after_set_round_trips() {
    let content = "[A]\nk=v\n";
    let mut ini = IniFile::parse(content).unwrap();
    ini.set("A", "k", "w");
    let rendered = ini.render();
    assert_eq!(rendered, "[A]\nk=w\n");
    let back = IniFile::parse(&rendered).unwrap();
    assert_eq!(back.get("A", "k"), Some("w".to_string()));
}

#[test]
fn test_dump_lists_sections_and_pairs() {
    let content = "[SCREEN]\r\nA=1\r\n";
    let ini = IniFile::parse(content).unwrap();
    assert_eq!(ini.dump(), "Line ending: \"\\r\\n\"\n[SCREEN]\n  A = 1\n");
}

#[test]
fn test_apply_game_settings_writes_all_six_keys() {
    let content = "[VIDEO]\nGRAPHICS_VER=0\n[SCREEN]\nFULLSCREEN_MODE=1\n";
    let mut ini = IniFile::parse(content).unwrap();
    apply_game_settings(&mut ini, true, false, 1280, 720, 1920, 1080);
    assert_eq!(ini.get("VIDEO", "GRAPHICS_VER"), Some("1".to_string()));
    assert_eq!(ini.get("SCREEN", "FULLSCREEN_MODE"), Some("0".to_string()));
    assert_eq!(ini.get("SCREEN", "WINDOW_RESOLUTION_W"), Some("1280".to_string()));
    assert_eq!(ini.get("SCREEN", "WINDOW_RESOLUTION_H"), Some("720".to_string()));
    assert_eq!(ini.get("SCREEN", "FULLSCREEN_RESOLUTION_W"), Some("1920".to_string()));
    assert_eq!(ini.get("SCREEN", "FULLSCREEN_RESOLUTION_H"), Some("1080".to_string()));
}
