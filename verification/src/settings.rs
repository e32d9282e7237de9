//! The launcher's view of the game's INI settings: reading them out with
//! their defaults, and writing one named setting back.

use vstd::prelude::*;
use vstd::string::*;
use crate::ini::{IniFile, IniView, ini_get_spec, ini_set_spec};
use crate::numbers::{
    dec_int, i64_to_string, parse_i32, parse_i32_spec, parse_u8, parse_u8_spec,
};
use crate::text::str_eq;

verus! {

/// The display and sound settings the launcher reads from the game's INI.
#[derive(Clone, Copy, Debug, PartialEq, Eq, Structural)]
pub struct Settings {
    pub hd_version: bool,
    pub fullscreen: bool,
    pub fullscreen_w: i32,
    pub fullscreen_h: i32,
    pub window_w: i32,
    pub window_h: i32,
    pub sound: u8,
    pub sound_unfocused: u8,
    pub sound_minimized: u8,
}

impl Default for Settings {
    /// All-off settings, used when the INI file cannot be read at all.
    fn default() -> (r: Settings)
        ensures
            !r.hd_version && !r.fullscreen,
            r.fullscreen_w == 0 && r.fullscreen_h == 0,
            r.window_w == 0 && r.window_h == 0,
            r.sound == 0 && r.sound_unfocused == 0 && r.sound_minimized == 0,
    {
        Settings {
            hd_version: false,
            fullscreen: false,
            fullscreen_w: 0,
            fullscreen_h: 0,
            window_w: 0,
            window_h: 0,
            sound: 0,
            sound_unfocused: 0,
            sound_minimized: 0,
        }
    }
}

/// A flag setting read from the INI: a parsable value counts as on when
/// positive; a missing or unparsable value falls back to the default.
pub open spec fn bool_setting(v: Option<Seq<char>>, default: bool) -> bool {
    match v {
        Some(s) => match parse_i32_spec(s) {
            Some(n) => n > 0,
            None => default,
        },
        None => default,
    }
}

/// A numeric setting read from the INI, with its default.
pub open spec fn i32_setting(v: Option<Seq<char>>, default: int) -> int {
    match v {
        Some(s) => match parse_i32_spec(s) {
            Some(n) => n,
            None => default,
        },
        None => default,
    }
}

/// A volume setting read from the INI, with its default.
pub open spec fn u8_setting(v: Option<Seq<char>>, default: int) -> int {
    match v {
        Some(s) => match parse_u8_spec(s) {
            Some(n) => n,
            None => default,
        },
        None => default,
    }
}

fn read_bool(ini: &IniFile, section: &str, key: &str, default: bool) -> (r: bool)
    ensures
        r == bool_setting(ini_get_spec(ini@, section@, key@), default),
{
    match ini.get(section, key) {
        Some(v) => match parse_i32(v.as_str()) {
            Some(n) => n > 0,
            None => default,
        },
        None => default,
    }
}

fn read_i32(ini: &IniFile, section: &str, key: &str, default: i32) -> (r: i32)
    ensures
        r as int == i32_setting(ini_get_spec(ini@, section@, key@), default as int),
{
    match ini.get(section, key) {
        Some(v) => match parse_i32(v.as_str()) {
            Some(n) => n,
            None => default,
        },
        None => default,
    }
}

fn read_u8(ini: &IniFile, section: &str, key: &str, default: u8) -> (r: u8)
    ensures
        r as int == u8_setting(ini_get_spec(ini@, section@, key@), default as int),
{
    match ini.get(section, key) {
        Some(v) => match parse_u8(v.as_str()) {
            Some(n) => n,
            None => default,
        },
        None => default,
    }
}

/// Reads every launcher setting out of parsed INI content, applying the
/// launcher's defaults field by field: HD on, windowed 1280x720, fullscreen
/// 1920x1080, all volumes zero.
pub fn get_settings(ini: &IniFile) -> (r: Settings)
    ensures
        r.hd_version == bool_setting(ini_get_spec(ini@, "VIDEO"@, "GRAPHICS_VER"@), true),
        r.fullscreen == bool_setting(ini_get_spec(ini@, "SCREEN"@, "FULLSCREEN_MODE"@), false),
        r.fullscreen_w as int == i32_setting(
            ini_get_spec(ini@, "SCREEN"@, "FULLSCREEN_RESOLUTION_W"@),
            1920,
        ),
        r.fullscreen_h as int == i32_setting(
            ini_get_spec(ini@, "SCREEN"@, "FULLSCREEN_RESOLUTION_H"@),
            1080,
        ),
        r.window_w as int == i32_setting(
            ini_get_spec(ini@, "SCREEN"@, "WINDOW_RESOLUTION_W"@),
            1280,
        ),
        r.window_h as int == i32_setting(ini_get_spec(ini@, "SCREEN"@, "WINDOW_RESOLUTION_H"@), 720),
        r.sound as int == u8_setting(ini_get_spec(ini@, "SOUND"@, "SOUND_VOLUME"@), 0),
        r.sound_unfocused as int == u8_setting(
            ini_get_spec(ini@, "SOUND"@, "SOUND_VOLUME_INACTIVITY"@),
            0,
        ),
        r.sound_minimized as int == u8_setting(
            ini_get_spec(ini@, "SOUND"@, "SOUND_VOLUME_MINIMIZE"@),
            0,
        ),
{
    Settings {
        hd_version: read_bool(ini, "VIDEO", "GRAPHICS_VER", true),
        fullscreen: read_bool(ini, "SCREEN", "FULLSCREEN_MODE", false),
        fullscreen_w: read_i32(ini, "SCREEN", "FULLSCREEN_RESOLUTION_W", 1920),
        fullscreen_h: read_i32(ini, "SCREEN", "FULLSCREEN_RESOLUTION_H", 1080),
        window_w: read_i32(ini, "SCREEN", "WINDOW_RESOLUTION_W", 1280),
        window_h: read_i32(ini, "SCREEN", "WINDOW_RESOLUTION_H", 720),
        sound: read_u8(ini, "SOUND", "SOUND_VOLUME", 0),
        sound_unfocused: read_u8(ini, "SOUND", "SOUND_VOLUME_INACTIVITY", 0),
        sound_minimized: read_u8(ini, "SOUND", "SOUND_VOLUME_MINIMIZE", 0),
    }
}

/// The value a caller hands to `set_setting`: the flag settings take a
/// boolean, the rest take an integer.
#[derive(Clone, Copy, Debug, PartialEq, Eq, Structural)]
pub enum SettingValue {
    Flag(bool),
    Num(i64),
}

/// The flag written for a boolean setting.
pub open spec fn flag_text(b: bool) -> Seq<char> {
    if b {
        "1"@
    } else {
        "0"@
    }
}

/// What `set_setting` does to the INI content: each known (name, value
/// shape) pair updates its key; anything else is ignored.
pub open spec fn set_setting_spec(iv: IniView, name: Seq<char>, value: SettingValue) -> IniView {
    match value {
        SettingValue::Flag(b) => if name == "hdVersion"@ {
            ini_set_spec(iv, "VIDEO"@, "GRAPHICS_VER"@, flag_text(b))
        } else if name == "fullscreen"@ {
            ini_set_spec(iv, "SCREEN"@, "FULLSCREEN_MODE"@, flag_text(b))
        } else {
            iv
        },
        SettingValue::Num(n) => if name == "fullscreenW"@ {
            ini_set_spec(iv, "SCREEN"@, "FULLSCREEN_RESOLUTION_W"@, dec_int(n as int))
        } else if name == "fullscreenH"@ {
            ini_set_spec(iv, "SCREEN"@, "FULLSCREEN_RESOLUTION_H"@, dec_int(n as int))
        } else if name == "windowW"@ {
            ini_set_spec(iv, "SCREEN"@, "WINDOW_RESOLUTION_W"@, dec_int(n as int))
        } else if name == "windowH"@ {
            ini_set_spec(iv, "SCREEN"@, "WINDOW_RESOLUTION_H"@, dec_int(n as int))
        } else if name == "sound"@ {
            ini_set_spec(iv, "SOUND"@, "SOUND_VOLUME"@, dec_int(n as int))
        } else if name == "soundUnfocused"@ {
            ini_set_spec(iv, "SOUND"@, "SOUND_VOLUME_INACTIVITY"@, dec_int(n as int))
        } else if name == "soundMinimized"@ {
            ini_set_spec(iv, "SOUND"@, "SOUND_VOLUME_MINIMIZE"@, dec_int(n as int))
        } else {
            iv
        },
    }
}

/// Writes one named setting into parsed INI content. An unknown name, or a
/// value of the wrong shape for its name, is ignored rather than an error.
pub fn set_setting(ini: &mut IniFile, name: &str, value: &SettingValue)
    ensures
        final(ini)@ == set_setting_spec(old(ini)@, name@, *value),
        final(ini).wf() == old(ini).wf(),
{
    match value {
        SettingValue::Flag(b) => {
            let text: &str = if *b {
                "1"
            } else {
                "0"
            };
            if str_eq(name, "hdVersion") {
                ini.set("VIDEO", "GRAPHICS_VER", text);
            } else if str_eq(name, "fullscreen") {
                ini.set("SCREEN", "FULLSCREEN_MODE", text);
            }
        },
        SettingValue::Num(n) => {
            let text = i64_to_string(*n);
            if str_eq(name, "fullscreenW") {
                ini.set("SCREEN", "FULLSCREEN_RESOLUTION_W", text.as_str());
            } else if str_eq(name, "fullscreenH") {
                ini.set("SCREEN", "FULLSCREEN_RESOLUTION_H", text.as_str());
            } else if str_eq(name, "windowW") {
                ini.set("SCREEN", "WINDOW_RESOLUTION_W", text.as_str());
            } else if str_eq(name, "windowH") {
                ini.set("SCREEN", "WINDOW_RESOLUTION_H", text.as_str());
            } else if str_eq(name, "sound") {
                ini.set("SOUND", "SOUND_VOLUME", text.as_str());
            } else if str_eq(name, "soundUnfocused") {
                ini.set("SOUND", "SOUND_VOLUME_INACTIVITY", text.as_str());
            } else if str_eq(name, "soundMinimized") {
                ini.set("SOUND", "SOUND_VOLUME_MINIMIZE", text.as_str());
            }
        },
    }
}

} // verus!
