use evremap::mapping::{EventCode, EventType, InputEvent, KeyCodeWrapper, Mapping, TimeVal};
use evremap::remapper::InputMapper;

const KEY_ESC: u16 = 1;
const KEY_TAB: u16 = 15;
const KEY_Y: u16 = 21;
const KEY_LEFTCTRL: u16 = 29;
const KEY_A: u16 = 30;
const KEY_X: u16 = 45;
const KEY_C: u16 = 46;
const KEY_B: u16 = 48;
const KEY_LEFTALT: u16 = 56;
const KEY_CAPSLOCK: u16 = 58;
const KEY_VOLUMEDOWN: u16 = 114;
const KEY_VOLUMEUP: u16 = 115;
const REL_WHEEL: u16 = 8;

fn key(code: u16) -> EventCode {
    EventCode { family: EventType::Key, code }
}

fn rel(code: u16) -> EventCode {
    EventCode { family: EventType::Rel, code }
}

fn kr(code: EventCode, scale: i32) -> KeyCodeWrapper {
    KeyCodeWrapper { code, scale }
}

fn at_ms(ms: i64) -> TimeVal {
    TimeVal { tv_sec: ms / 1000, tv_usec: (ms % 1000) * 1000 }
}

fn ev(code: EventCode, value: i32, ms: i64) -> InputEvent {
    InputEvent { time: at_ms(ms), event_code: code, value }
}

fn syn(ms: i64) -> InputEvent {
    ev(EventCode { family: EventType::Syn, code: 0 }, 0, ms)
}

fn simple_remap_config() -> Vec<Mapping> {
    vec![Mapping::Remap {
        input: vec![kr(key(KEY_CAPSLOCK), 1)],
        output: vec![kr(key(KEY_ESC), 1)],
    }]
}

fn dual_role_config() -> Vec<Mapping> {
    vec![Mapping::DualRole {
        input: key(KEY_CAPSLOCK),
        hold: vec![key(KEY_LEFTCTRL)],
        tap: vec![key(KEY_ESC)],
    }]
}

#[test]
fn simple_remap_single_key() {
    let mut m = InputMapper::new(simple_remap_config(), Vec::new());
    let out = m.update_with_event(&ev(key(KEY_CAPSLOCK), 1, 0), key(KEY_CAPSLOCK));
    assert_eq!(out, vec![ev(key(KEY_ESC), 1, 0), syn(0)]);
    let out = m.update_with_event(&ev(key(KEY_CAPSLOCK), 0, 50), key(KEY_CAPSLOCK));
    assert_eq!(out, vec![ev(key(KEY_ESC), 0, 50), syn(50)]);
}

#[test]
fn dual_role_tap() {
    let mut m = InputMapper::new(dual_role_config(), Vec::new());
    let out = m.update_with_event(&ev(key(KEY_CAPSLOCK), 1, 0), key(KEY_CAPSLOCK));
    assert_eq!(out, vec![ev(key(KEY_LEFTCTRL), 1, 0), syn(0)]);
    let out = m.update_with_event(&ev(key(KEY_CAPSLOCK), 0, 100), key(KEY_CAPSLOCK));
    assert_eq!(
        out,
        vec![
            ev(key(KEY_LEFTCTRL), 0, 100),
            syn(100),
            ev(key(KEY_ESC), 1, 100),
            syn(100),
            ev(key(KEY_ESC), 0, 100),
            syn(100),
        ]
    );
}

#[test]
fn dual_role_hold() {
    let mut m = InputMapper::new(dual_role_config(), Vec::new());
    let out = m.update_with_event(&ev(key(KEY_CAPSLOCK), 1, 0), key(KEY_CAPSLOCK));
    assert_eq!(out, vec![ev(key(KEY_LEFTCTRL), 1, 0), syn(0)]);
    let out = m.update_with_event(&ev(key(KEY_C), 1, 50), key(KEY_C));
    assert_eq!(out, vec![ev(key(KEY_C), 1, 50), syn(50)]);
    let out = m.update_with_event(&ev(key(KEY_C), 0, 300), key(KEY_C));
    assert_eq!(out, vec![ev(key(KEY_C), 0, 300), syn(300)]);
    // The release comes more than 200 ms after the CAPSLOCK press and a
    // key was pressed in between, so no ESC tap may appear.
    let out = m.update_with_event(&ev(key(KEY_CAPSLOCK), 0, 400), key(KEY_CAPSLOCK));
    assert_eq!(out, vec![ev(key(KEY_LEFTCTRL), 0, 400), syn(400)]);
}

#[test]
fn tap_window_boundary() {
    // Released exactly 200 ms after the press: still a tap.
    let mut m = InputMapper::new(dual_role_config(), Vec::new());
    m.update_with_event(&ev(key(KEY_CAPSLOCK), 1, 0), key(KEY_CAPSLOCK));
    let out = m.update_with_event(&ev(key(KEY_CAPSLOCK), 0, 200), key(KEY_CAPSLOCK));
    assert_eq!(out.len(), 6);
    assert_eq!(out[2], ev(key(KEY_ESC), 1, 200));

    // One microsecond past the window: no tap.
    let mut m = InputMapper::new(dual_role_config(), Vec::new());
    m.update_with_event(&ev(key(KEY_CAPSLOCK), 1, 0), key(KEY_CAPSLOCK));
    let late = InputEvent {
        time: TimeVal { tv_sec: 0, tv_usec: 200_001 },
        event_code: key(KEY_CAPSLOCK),
        value: 0,
    };
    let out = m.update_with_event(&late, key(KEY_CAPSLOCK));
    assert_eq!(out.len(), 2);
    assert_eq!(out[0].event_code, key(KEY_LEFTCTRL));
}

#[test]
fn chord_remap_modifier_first_press_ordering() {
    let mappings = vec![Mapping::Remap {
        input: vec![kr(key(KEY_LEFTALT), 1), kr(key(KEY_TAB), 1)],
        output: vec![kr(key(KEY_LEFTCTRL), 1), kr(key(KEY_TAB), 1)],
    }];
    let mut m = InputMapper::new(mappings, Vec::new());
    let out = m.update_with_event(&ev(key(KEY_LEFTALT), 1, 0), key(KEY_LEFTALT));
    assert_eq!(out, vec![ev(key(KEY_LEFTALT), 1, 0), syn(0)]);
    let out = m.update_with_event(&ev(key(KEY_TAB), 1, 20), key(KEY_TAB));
    // LEFTALT is released (it is the only key to release), then the
    // presses come modifier first: LEFTCTRL before TAB.
    assert_eq!(
        out,
        vec![
            ev(key(KEY_LEFTALT), 0, 20),
            syn(20),
            ev(key(KEY_LEFTCTRL), 1, 20),
            ev(key(KEY_TAB), 1, 20),
            syn(20),
        ]
    );
}

#[test]
fn axis_remap_scaling_and_direction_filter() {
    let mappings = vec![
        Mapping::Remap {
            input: vec![kr(rel(REL_WHEEL), 1)],
            output: vec![kr(key(KEY_VOLUMEUP), 1)],
        },
        Mapping::Remap {
            input: vec![kr(rel(REL_WHEEL), -1)],
            output: vec![kr(key(KEY_VOLUMEDOWN), 1)],
        },
    ];
    let mut m = InputMapper::new(mappings, Vec::new());
    let out = m.update_with_event(&ev(rel(REL_WHEEL), 1, 0), rel(REL_WHEEL));
    assert_eq!(
        out,
        vec![ev(key(KEY_VOLUMEUP), 1, 0), ev(key(KEY_VOLUMEUP), 0, 0), syn(0)]
    );
    let out = m.update_with_event(&ev(rel(REL_WHEEL), -2, 10), rel(REL_WHEEL));
    assert_eq!(
        out,
        vec![ev(key(KEY_VOLUMEDOWN), 1, 10), ev(key(KEY_VOLUMEDOWN), 0, 10), syn(10)]
    );
}

#[test]
fn axis_to_axis_scaling() {
    // Divide wheel ticks by 2 and multiply by 3 on the way out.
    let mappings = vec![Mapping::Remap {
        input: vec![kr(rel(REL_WHEEL), 2)],
        output: vec![kr(rel(1), 3)],
    }];
    let mut m = InputMapper::new(mappings, Vec::new());
    let out = m.update_with_event(&ev(rel(REL_WHEEL), 7, 0), rel(REL_WHEEL));
    assert_eq!(out, vec![ev(rel(1), 9, 0), syn(0)]);
}

#[test]
fn specificity_larger_chord_wins() {
    // The larger chord is declared first so that the resolver applies it
    // before the unary rule can hide the shared key.
    let mappings = vec![
        Mapping::Remap {
            input: vec![kr(key(KEY_A), 1), kr(key(KEY_B), 1)],
            output: vec![kr(key(KEY_Y), 1)],
        },
        Mapping::Remap {
            input: vec![kr(key(KEY_A), 1)],
            output: vec![kr(key(KEY_X), 1)],
        },
    ];
    let mut m = InputMapper::new(mappings, Vec::new());
    let out = m.update_with_event(&ev(key(KEY_A), 1, 0), key(KEY_A));
    assert_eq!(out, vec![ev(key(KEY_X), 1, 0), syn(0)]);
    let out = m.update_with_event(&ev(key(KEY_B), 1, 10), key(KEY_B));
    assert_eq!(
        out,
        vec![ev(key(KEY_X), 0, 10), syn(10), ev(key(KEY_Y), 1, 10), syn(10)]
    );
}

#[test]
fn reconciliation_is_idempotent() {
    let mut m = InputMapper::new(simple_remap_config(), Vec::new());
    m.update_with_event(&ev(key(KEY_CAPSLOCK), 1, 0), key(KEY_CAPSLOCK));
    let mut out: Vec<InputEvent> = Vec::new();
    m.compute_and_apply_keys(&at_ms(5), &mut out);
    assert!(out.is_empty());
    m.compute_and_apply_keys(&at_ms(6), &mut out);
    assert!(out.is_empty());
}

#[test]
fn passthrough_of_unmapped_family() {
    let mut m = InputMapper::new(simple_remap_config(), Vec::new());
    // No rule touches the REL family, so a wheel event passes through
    // verbatim, with no added synchronization marker.
    let e = ev(rel(REL_WHEEL), 1, 0);
    let out = m.handle_event(&e);
    assert_eq!(out, vec![e]);
    // A SYN event from upstream passes through the same way.
    let e = syn(3);
    let out = m.handle_event(&e);
    assert_eq!(out, vec![e]);
}

#[test]
fn resolver_is_pure() {
    let held = vec![key(KEY_CAPSLOCK), key(KEY_C)];
    let maps = simple_remap_config();
    let mods = evremap::remapper::default_modifiers();
    let a = evremap::resolver::compute_keys(&held, &maps, &mods);
    let b = evremap::resolver::compute_keys(&held, &maps, &mods);
    assert_eq!(a, b);
    let mut expect = a.clone();
    expect.sort_by_key(|c| c.code);
    let mut got = vec![key(KEY_ESC), key(KEY_C)];
    got.sort_by_key(|c| c.code);
    assert_eq!(expect, got);
}

#[test]
fn press_release_balance_over_a_session() {
    let mut m = InputMapper::new(dual_role_config(), Vec::new());
    let script = vec![
        ev(key(KEY_CAPSLOCK), 1, 0),
        ev(key(KEY_C), 1, 50),
        ev(key(KEY_C), 0, 120),
        ev(key(KEY_CAPSLOCK), 0, 150),
        ev(key(KEY_CAPSLOCK), 1, 300),
        ev(key(KEY_CAPSLOCK), 0, 700),
    ];
    let mut depth: std::collections::HashMap<u16, i32> = std::collections::HashMap::new();
    for e in &script {
        for w in m.update_with_event(e, e.event_code) {
            if w.event_code.family == EventType::Key {
                let d = depth.entry(w.event_code.code).or_insert(0);
                match w.value {
                    1 => {
                        assert_eq!(*d, 0, "press of a key already down");
                        *d = 1;
                    }
                    0 => {
                        assert_eq!(*d, 1, "release of a key not down");
                        *d = 0;
                    }
                    _ => {}
                }
            }
        }
    }
    for (code, d) in depth {
        assert_eq!(d, 0, "key {code} left pressed");
    }
}

#[test]
fn sync_discipline_in_batches() {
    let mut m = InputMapper::new(dual_role_config(), Vec::new());
    let script = vec![
        ev(key(KEY_CAPSLOCK), 1, 0),
        ev(key(KEY_C), 1, 50),
        ev(key(KEY_C), 2, 80),
        ev(key(KEY_C), 0, 120),
        ev(key(KEY_CAPSLOCK), 0, 150),
    ];
    for e in &script {
        let out = m.update_with_event(e, e.event_code);
        assert!(!out.is_empty());
        assert!(out[0].event_code.family != EventType::Syn);
        assert_eq!(out.last().unwrap().event_code.family, EventType::Syn);
        for i in 1..out.len() {
            if out[i].event_code.family == EventType::Syn {
                assert!(out[i - 1].event_code.family != EventType::Syn);
            }
        }
    }
}

#[test]
fn repeat_of_dual_role_key_repeats_hold() {
    let mut m = InputMapper::new(dual_role_config(), Vec::new());
    m.update_with_event(&ev(key(KEY_CAPSLOCK), 1, 0), key(KEY_CAPSLOCK));
    let out = m.update_with_event(&ev(key(KEY_CAPSLOCK), 2, 30), key(KEY_CAPSLOCK));
    assert_eq!(out, vec![ev(key(KEY_LEFTCTRL), 2, 30), syn(30)]);
}

#[test]
fn repeat_of_unmapped_key_passes_through() {
    let mut m = InputMapper::new(dual_role_config(), Vec::new());
    let out = m.update_with_event(&ev(key(KEY_C), 2, 30), key(KEY_C));
    assert_eq!(out, vec![ev(key(KEY_C), 2, 30), syn(30)]);
}

#[test]
fn release_of_untracked_key_passes_through() {
    let mut m = InputMapper::new(simple_remap_config(), Vec::new());
    let out = m.update_with_event(&ev(key(KEY_C), 0, 5), key(KEY_C));
    assert_eq!(out, vec![ev(key(KEY_C), 0, 5), syn(5)]);
}

#[test]
fn configured_modifiers_shape_press_order() {
    // KEY_A is declared a modifier, so it is pressed before KEY_C.
    let mappings = vec![Mapping::Remap {
        input: vec![kr(key(KEY_B), 1)],
        output: vec![kr(key(KEY_C), 1), kr(key(KEY_A), 1)],
    }];
    let mut m = InputMapper::new(mappings, vec![key(KEY_A)]);
    let out = m.update_with_event(&ev(key(KEY_B), 1, 0), key(KEY_B));
    assert_eq!(
        out,
        vec![ev(key(KEY_A), 1, 0), ev(key(KEY_C), 1, 0), syn(0)]
    );
}

#[test]
fn axis_chord_needs_other_keys_held() {
    // The wheel only remaps while LEFTALT is physically held.
    let mappings = vec![Mapping::Remap {
        input: vec![kr(key(KEY_LEFTALT), 1), kr(rel(REL_WHEEL), 1)],
        output: vec![kr(key(KEY_VOLUMEUP), 1)],
    }];
    let mut m = InputMapper::new(mappings, Vec::new());
    let out = m.update_with_event(&ev(rel(REL_WHEEL), 1, 0), rel(REL_WHEEL));
    assert_eq!(out, vec![ev(rel(REL_WHEEL), 1, 0), syn(0)]);
    m.update_with_event(&ev(key(KEY_LEFTALT), 1, 10), key(KEY_LEFTALT));
    let out = m.update_with_event(&ev(rel(REL_WHEEL), 1, 20), rel(REL_WHEEL));
    assert_eq!(
        out,
        vec![ev(key(KEY_VOLUMEUP), 1, 20), ev(key(KEY_VOLUMEUP), 0, 20), syn(20)]
    );
}

#[test]
fn key_references_ignore_direction_filters() {
    // A key reference claims a press whatever its scale's sign says.
    let mappings = vec![Mapping::Remap {
        input: vec![kr(key(KEY_CAPSLOCK), -5)],
        output: vec![kr(key(KEY_ESC), 1)],
    }];
    let mut m = InputMapper::new(mappings, Vec::new());
    let out = m.update_with_event(&ev(key(KEY_CAPSLOCK), 1, 0), key(KEY_CAPSLOCK));
    assert_eq!(out, vec![ev(key(KEY_ESC), 1, 0), syn(0)]);
}

#[test]
fn codes_to_enable_covers_rule_outputs() {
    let mut mappings = dual_role_config();
    mappings.extend(simple_remap_config());
    let codes = evremap::remapper::codes_to_enable(&mappings);
    assert!(codes.contains(&key(KEY_LEFTCTRL)));
    assert!(codes.contains(&key(KEY_ESC)));
    assert!(!codes.contains(&key(KEY_CAPSLOCK)));
    assert_eq!(codes.len(), 2);
}
