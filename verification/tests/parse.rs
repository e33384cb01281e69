use evremap::mapping::{
    parse_key_ref, timeval_diff, to_event_type, ConfigError, EventCode, EventType, TimeVal,
};
use evremap::remapper::{
    default_modifiers, is_modifier, make_event, modifiers_first, modifiers_last, scale_axis_value,
    KeyEventType,
};
use std::cmp::Ordering;

#[test]
fn parse_bare_key_name() {
    let p = parse_key_ref("KEY_CAPSLOCK").unwrap();
    assert_eq!(p.family, EventType::Key);
    assert_eq!(p.name, b"KEY_CAPSLOCK".to_vec());
    assert_eq!(p.scale, 1);
}

#[test]
fn parse_btn_name_is_key_family() {
    let p = parse_key_ref("BTN_LEFT").unwrap();
    assert_eq!(p.family, EventType::Key);
    assert_eq!(p.name, b"BTN_LEFT".to_vec());
    assert_eq!(p.scale, 1);
}

#[test]
fn parse_bare_axis_name_matches_either_direction() {
    let p = parse_key_ref("REL_WHEEL").unwrap();
    assert_eq!(p.family, EventType::Rel);
    assert_eq!(p.name, b"REL_WHEEL".to_vec());
    assert_eq!(p.scale, 0);
}

#[test]
fn parse_axis_with_signs_and_magnitudes() {
    let p = parse_key_ref("REL_WHEEL+").unwrap();
    assert_eq!((p.family, p.scale), (EventType::Rel, 1));
    assert_eq!(p.name, b"REL_WHEEL".to_vec());
    let p = parse_key_ref("REL_WHEEL-").unwrap();
    assert_eq!(p.scale, -1);
    let p = parse_key_ref("REL_WHEEL-2").unwrap();
    assert_eq!(p.scale, -2);
    let p = parse_key_ref("ABS_X+12").unwrap();
    assert_eq!((p.family, p.scale), (EventType::Abs, 12));
}

#[test]
fn parse_other_families() {
    assert_eq!(parse_key_ref("SW_LID").unwrap().family, EventType::Sw);
    assert_eq!(parse_key_ref("LED_CAPSL").unwrap().family, EventType::Led);
    assert_eq!(parse_key_ref("MSC_SCAN").unwrap().family, EventType::Msc);
    assert_eq!(parse_key_ref("SND_BELL").unwrap().family, EventType::Snd);
    assert_eq!(parse_key_ref("REP_DELAY").unwrap().family, EventType::Rep);
    assert_eq!(parse_key_ref("FF_RUMBLE").unwrap().family, EventType::Ff);
    assert_eq!(parse_key_ref("SYN_REPORT").unwrap().family, EventType::Syn);
}

#[test]
fn parse_rejects_bad_tokens() {
    let check = |s: &str| match parse_key_ref(s) {
        Err(ConfigError::InvalidKey(t)) => assert_eq!(t, s),
        other => panic!("expected InvalidKey for {s}, got {other:?}"),
    };
    // No underscore in the name.
    check("NOUNDERSCORE");
    // Unknown family prefix.
    check("XXX_FOO");
    // A non-digit after the sign.
    check("KEY_A+x");
    // A scale magnitude that does not fit an i32.
    check("KEY_A+99999999999");
}

#[test]
fn parse_keeps_odd_names_for_the_resolver_to_reject() {
    // Splitting at the last sign leaves the first sign inside the name;
    // the name lookup, not the grammar, rejects it.
    let p = parse_key_ref("KEY_A+-2").unwrap();
    assert_eq!(p.name, b"KEY_A+".to_vec());
    assert_eq!(p.scale, -2);
}

#[test]
fn event_value_round_trip() {
    assert_eq!(KeyEventType::from_value(0).value(), 0);
    assert_eq!(KeyEventType::from_value(1).value(), 1);
    assert_eq!(KeyEventType::from_value(2).value(), 2);
    assert_eq!(KeyEventType::from_value(77).value(), 77);
    assert!(matches!(KeyEventType::from_value(0), KeyEventType::Release));
    assert!(matches!(KeyEventType::from_value(77), KeyEventType::Unknown(77)));
}

#[test]
fn timeval_diff_in_micros() {
    let older = TimeVal { tv_sec: 0, tv_usec: 999_999 };
    let newer = TimeVal { tv_sec: 1, tv_usec: 500 };
    assert_eq!(timeval_diff(&newer, &older), 501);
    assert_eq!(timeval_diff(&newer, &newer), 0);
}

#[test]
fn classifier_reads_the_family() {
    let c = EventCode { family: EventType::Abs, code: 3 };
    assert_eq!(to_event_type(&c), EventType::Abs);
    let c = EventCode { family: EventType::Unknown, code: 9 };
    assert_eq!(to_event_type(&c), EventType::Unknown);
}

#[test]
fn default_modifier_set() {
    let mods = default_modifiers();
    assert_eq!(mods.len(), 9);
    let ctrl = EventCode { family: EventType::Key, code: 29 };
    let fn_key = EventCode { family: EventType::Key, code: 464 };
    let a = EventCode { family: EventType::Key, code: 30 };
    assert!(is_modifier(&ctrl));
    assert!(is_modifier(&fn_key));
    assert!(!is_modifier(&a));
    // A REL code with a modifier's number is not a modifier.
    let fake = EventCode { family: EventType::Rel, code: 29 };
    assert!(!is_modifier(&fake));
}

#[test]
fn modifier_comparators() {
    let ctrl = EventCode { family: EventType::Key, code: 29 };
    let shift = EventCode { family: EventType::Key, code: 42 };
    let a = EventCode { family: EventType::Key, code: 30 };
    assert_eq!(modifiers_first(&ctrl, &a), Ordering::Less);
    assert_eq!(modifiers_first(&a, &ctrl), Ordering::Greater);
    assert_eq!(modifiers_first(&ctrl, &shift), Ordering::Equal);
    assert_eq!(modifiers_first(&a, &a), Ordering::Equal);
    assert_eq!(modifiers_last(&ctrl, &a), Ordering::Greater);
    assert_eq!(modifiers_last(&a, &ctrl), Ordering::Less);
}

#[test]
fn axis_scaling_arithmetic() {
    assert_eq!(scale_axis_value(7, 2, 3), 9);
    assert_eq!(scale_axis_value(-5, 2, 1), -2);
    assert_eq!(scale_axis_value(-7, -2, 3), 9);
    assert_eq!(scale_axis_value(1, 0, 0), 1);
    assert_eq!(scale_axis_value(2147483647, 1, 2), 2147483647);
    assert_eq!(scale_axis_value(-2147483648, 1, 2), -2147483648);
}

#[test]
fn make_event_builds_the_raw_event() {
    let t = TimeVal { tv_sec: 3, tv_usec: 7 };
    let c = EventCode { family: EventType::Key, code: 30 };
    let e = make_event(c, &t, KeyEventType::Press);
    assert_eq!(e.time, t);
    assert_eq!(e.event_code, c);
    assert_eq!(e.value, 1);
}
