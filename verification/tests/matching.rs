use global_hotkeys::handle_event;
use global_hotkeys::handle_events;
use global_hotkeys::match_hotkeys;
use global_hotkeys::HeldKeys;
use global_hotkeys::Hotkey;
use global_hotkeys::KeyEvent;
use global_hotkeys::KeyState;
use global_hotkeys::ParsedHotkey;

const A: u32 = 1;
const B: u32 = 2;
const C: u32 = 3;

fn table() -> Vec<(String, u32)> {
    vec![
        ("a".to_string(), A),
        ("b".to_string(), B),
        ("c".to_string(), C),
    ]
}

fn compile(key: &str) -> ParsedHotkey {
    let h = Hotkey {
        name: None,
        key: key.to_string(),
        command: "x".to_string(),
    };
    ParsedHotkey::new(&h, &table()).unwrap()
}

fn press(code: u32) -> KeyEvent {
    KeyEvent { state: KeyState::Pressed, code }
}

fn release(code: u32) -> KeyEvent {
    KeyEvent { state: KeyState::Released, code }
}

#[test]
fn held_keys_match_by_canonical_form() {
    // held = {a, b}, then c is pressed: the candidate is [a, b, c].
    let hotkeys = vec![compile("a+b+c"), compile("b+a+c"), compile("c+a+b")];
    let mut held = HeldKeys::new();
    assert!(handle_event(&mut held, &hotkeys, press(A)).is_empty());
    assert!(handle_event(&mut held, &hotkeys, press(B)).is_empty());
    let fired = handle_event(&mut held, &hotkeys, press(C));
    // "a+b+c" and "b+a+c" share the canonical form [a, b, c] and both fire;
    // "c+a+b" has trigger b, so this press cannot match it.
    assert_eq!(fired, vec![0, 1]);
}

#[test]
fn releasing_unheld_key_is_a_no_op() {
    let hotkeys = vec![compile("a+b")];
    let mut held = HeldKeys::new();
    let fired = handle_event(&mut held, &hotkeys, release(C));
    assert!(fired.is_empty());
    assert!(held.codes().is_empty());
    // The tracker state is untouched, so matching behaves as if the stray
    // release never happened.
    assert!(handle_event(&mut held, &hotkeys, press(A)).is_empty());
    handle_event(&mut held, &hotkeys, release(C));
    let fired = handle_event(&mut held, &hotkeys, press(B));
    assert_eq!(fired, vec![0]);
}

#[test]
fn re_press_still_evaluates_with_that_trigger() {
    // a is already held; pressing it again evaluates with candidate [a, a].
    let hotkeys = vec![compile("a+a"), compile("a")];
    let mut held = HeldKeys::new();
    let first = handle_event(&mut held, &hotkeys, press(A));
    assert_eq!(first, vec![1]);
    let again = handle_event(&mut held, &hotkeys, press(A));
    assert_eq!(again, vec![0]);
    assert_eq!(held.codes(), &vec![A]);
}

#[test]
fn shared_combo_fires_both() {
    let hotkeys = vec![compile("a+b+c"), compile("b+a+c")];
    let mut held = HeldKeys::new();
    handle_event(&mut held, &hotkeys, press(A));
    handle_event(&mut held, &hotkeys, press(B));
    let fired = handle_event(&mut held, &hotkeys, press(C));
    assert_eq!(fired, vec![0, 1]);
}

#[test]
fn match_is_exact_on_length() {
    let hotkeys = vec![compile("a+c"), compile("c")];
    // candidate [a, b, c] matches neither the shorter nor the other combo
    let cand = vec![A, B, C];
    assert!(match_hotkeys(&hotkeys, &cand).is_empty());
}

#[test]
fn batch_is_processed_in_emission_order() {
    let hotkeys = vec![compile("a+b")];
    let mut held = HeldKeys::new();
    let events = vec![press(A), press(B), release(B), release(A), press(B)];
    let fired = handle_events(&mut held, &hotkeys, &events);
    assert_eq!(fired.len(), 5);
    assert!(fired[0].is_empty());
    // the press of a was booked before b's press is evaluated
    assert_eq!(fired[1], vec![0]);
    assert!(fired[2].is_empty());
    assert!(fired[3].is_empty());
    // by the last press nothing is held any more, so nothing matches
    assert!(fired[4].is_empty());
    assert_eq!(held.codes(), &vec![B]);
}

#[test]
fn end_to_end_ctrl_alt_t() {
    let keycodes = vec![
        ("ctrl".to_string(), 29),
        ("alt".to_string(), 56),
        ("t".to_string(), 20),
    ];
    let h = Hotkey {
        name: None,
        key: "ctrl+alt+t".to_string(),
        command: "echo hi".to_string(),
    };
    let hotkeys = vec![ParsedHotkey::new(&h, &keycodes).unwrap()];
    let mut held = HeldKeys::new();
    assert!(handle_event(&mut held, &hotkeys, press(29)).is_empty());
    assert!(handle_event(&mut held, &hotkeys, press(56)).is_empty());
    let fired = handle_event(&mut held, &hotkeys, press(20));
    assert_eq!(fired, vec![0], "exactly one match fires on the t-press");
    assert_eq!(hotkeys[fired[0]].command, "echo hi");
    // releases, in any order, fire nothing and do not un-fire the match
    assert!(handle_event(&mut held, &hotkeys, release(56)).is_empty());
    assert!(handle_event(&mut held, &hotkeys, release(20)).is_empty());
    assert!(handle_event(&mut held, &hotkeys, release(29)).is_empty());
    assert!(held.codes().is_empty());
}
