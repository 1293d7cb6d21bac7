use global_hotkeys::compile_hotkeys;
use global_hotkeys::Config;
use global_hotkeys::Hotkey;
use global_hotkeys::HotkeyError;
use global_hotkeys::ParsedHotkey;

fn table() -> Vec<(String, u32)> {
    vec![
        ("ctrl".to_string(), 29),
        ("alt".to_string(), 56),
        ("t".to_string(), 20),
    ]
}

fn hotkey(key: &str, command: &str) -> Hotkey {
    Hotkey {
        name: None,
        key: key.to_string(),
        command: command.to_string(),
    }
}

#[test]
fn valid_default_config() {
    let config = Config {
        run_as: "nobody".to_string(),
        shell: "/bin/sh".to_string(),
        env: vec![("DISPLAY".to_string(), ":0".to_string())],
        keycodes: table(),
        hotkeys: vec![Hotkey {
            name: Some("terminal".to_string()),
            key: "ctrl+alt+t".to_string(),
            command: "echo hi".to_string(),
        }],
    };
    let res = compile_hotkeys(&config.hotkeys, &config.keycodes);
    assert!(res.is_ok(), "{res:?}");
}

#[test]
fn prefix_sorted_trigger_last() {
    // alt's code (56) is above ctrl's (29): the prefix comes out ascending
    // while the trigger key 't' (20) stays last.
    let ph = ParsedHotkey::new(&hotkey("alt+ctrl+t", "x"), &table()).unwrap();
    assert_eq!(ph.keys, vec![29, 56, 20]);
}

#[test]
fn modifier_order_does_not_matter() {
    let a = ParsedHotkey::new(&hotkey("ctrl+alt+t", "x"), &table()).unwrap();
    let b = ParsedHotkey::new(&hotkey("alt+ctrl+t", "x"), &table()).unwrap();
    assert_eq!(a.keys, b.keys);
}

#[test]
fn single_key_combo() {
    let ph = ParsedHotkey::new(&hotkey("t", "x"), &table()).unwrap();
    assert_eq!(ph.keys, vec![20]);
    assert_eq!(ph.command, "x");
}

#[test]
fn unknown_key_is_named() {
    let err = ParsedHotkey::new(&hotkey("ctrl+boom", "x"), &table()).unwrap_err();
    match &err {
        HotkeyError::UnknownKey(name) => assert_eq!(name, "boom"),
        other => panic!("expected UnknownKey, got {other:?}"),
    }
    assert_eq!(err.message(), "undefined keycode: boom");
}

#[test]
fn empty_combo_is_rejected() {
    let err = ParsedHotkey::new(&hotkey("", "x"), &table()).unwrap_err();
    assert!(matches!(err, HotkeyError::EmptyCombo), "{err:?}");
    assert_eq!(err.message(), "no keys defined for hotkey");
}

#[test]
fn empty_token_is_rejected() {
    let err = ParsedHotkey::new(&hotkey("ctrl+", "x"), &table()).unwrap_err();
    match err {
        HotkeyError::UnknownKey(name) => assert_eq!(name, ""),
        other => panic!("expected UnknownKey, got {other:?}"),
    }
}

#[test]
fn error_messages_name_the_rejected_value() {
    let spawn = HotkeyError::Spawn("boom".to_string());
    assert_eq!(spawn.message(), "failed to spawn command: boom");
    let fatal = HotkeyError::FatalInput("seat denied".to_string());
    assert_eq!(fatal.message(), "fatal input error: seat denied");
}

#[test]
fn compile_all_stops_at_first_bad_combo() {
    let hotkeys = vec![hotkey("ctrl+t", "a"), hotkey("ctrl+boom", "b")];
    let err = compile_hotkeys(&hotkeys, &table()).unwrap_err();
    match err {
        HotkeyError::UnknownKey(name) => assert_eq!(name, "boom"),
        other => panic!("expected UnknownKey, got {other:?}"),
    }
}
