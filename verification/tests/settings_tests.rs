use butter_patcher::ini::IniFile;
use butter_patcher::settings::{get_settings, set_setting, Settings, SettingValue};

const FULL_INI: &str = "[SCREEN]\r\n\
FULLSCREEN_MODE=1\r\n\
WINDOW_RESOLUTION_W=1600\r\n\
WINDOW_RESOLUTION_H=900\r\n\
FULLSCREEN_RESOLUTION_W=2560\r\n\
FULLSCREEN_RESOLUTION_H=1440\r\n\
[VIDEO]\r\n\
GRAPHICS_VER=0\r\n\
[SOUND]\r\n\
SOUND_VOLUME=80\r\n\
SOUND_VOLUME_INACTIVITY=40\r\n\
SOUND_VOLUME_MINIMIZE=5\r\n";

#[test]
fn settings_are_read_from_their_sections() {
    let ini = IniFile::parse(FULL_INI).unwrap();
    let s = get_settings(&ini);
    assert!(!s.hd_version);
    assert!(s.fullscreen);
    assert_eq!(s.window_w, 1600);
    assert_eq!(s.window_h, 900);
    assert_eq!(s.fullscreen_w, 2560);
    assert_eq!(s.fullscreen_h, 1440);
    assert_eq!(s.sound, 80);
    assert_eq!(s.sound_unfocused, 40);
    assert_eq!(s.sound_minimized, 5);
}

#[test]
fn missing_or_unparsable_settings_fall_back_to_defaults() {
    let ini = IniFile::parse("[SCREEN]\nWINDOW_RESOLUTION_W=not-a-number\n").unwrap();
    let s = get_settings(&ini);
    assert!(s.hd_version);
    assert!(!s.fullscreen);
    assert_eq!(s.window_w, 1280);
    assert_eq!(s.window_h, 720);
    assert_eq!(s.fullscreen_w, 1920);
    assert_eq!(s.fullscreen_h, 1080);
    assert_eq!(s.sound, 0);
}

#[test]
fn defaults_struct_is_all_off() {
    let s = Settings::default();
    assert!(!s.hd_version);
    assert!(!s.fullscreen);
    assert_eq!(s.window_w, 0);
    assert_eq!(s.sound, 0);
}

#[test]
fn set_setting_writes_the_matching_key() {
    let mut ini = IniFile::parse("[VIDEO]\nGRAPHICS_VER=0\n").unwrap();
    set_setting(&mut ini, "hdVersion", &SettingValue::Flag(true));
    assert_eq!(ini.get("VIDEO", "GRAPHICS_VER"), Some("1".to_string()));

    set_setting(&mut ini, "windowW", &SettingValue::Num(1024));
    assert_eq!(ini.get("SCREEN", "WINDOW_RESOLUTION_W"), Some("1024".to_string()));

    set_setting(&mut ini, "sound", &SettingValue::Num(55));
    assert_eq!(ini.get("SOUND", "SOUND_VOLUME"), Some("55".to_string()));
}

#[test]
fn unknown_or_mismatched_settings_are_ignored() {
    let mut ini = IniFile::parse("[VIDEO]\nGRAPHICS_VER=0\n").unwrap();
    set_setting(&mut ini, "noSuchSetting", &SettingValue::Num(1));
    set_setting(&mut ini, "hdVersion", &SettingValue::Num(1));
    set_setting(&mut ini, "windowW", &SettingValue::Flag(true));
    assert_eq!(ini.get("VIDEO", "GRAPHICS_VER"), Some("0".to_string()));
    assert_eq!(ini.get("SCREEN", "WINDOW_RESOLUTION_W"), None);
}

#[test]
fn set_setting_round_trips_through_get_settings() {
    let mut ini = IniFile::parse("[SCREEN]\nFULLSCREEN_MODE=0\n").unwrap();
    set_setting(&mut ini, "fullscreen", &SettingValue::Flag(true));
    set_setting(&mut ini, "fullscreenW", &SettingValue::Num(3840));
    set_setting(&mut ini, "fullscreenH", &SettingValue::Num(2160));
    let s = get_settings(&ini);
    assert!(s.fullscreen);
    assert_eq!(s.fullscreen_w, 3840);
    assert_eq!(s.fullscreen_h, 2160);
}
