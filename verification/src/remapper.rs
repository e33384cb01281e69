//! The remapping engine: input and output key tracking, the two-phase
//! key-set resolver, the diff-and-emit reconciler, the dual-role tap
//! detector, and the axis remap path.
use vstd::prelude::*;

use crate::mapping::{EventCode, EventType, InputEvent, KeyCode, KeyCodeWrapper, Mapping, TimeVal};
use crate::resolver::{compute_keys, spec_desired_keys, vec_contains_code};

verus! {

/// A key event's kind, read from the raw `value` field of an event:
/// 0 is a release, 1 a press, 2 a repeat; anything else is unknown.
#[derive(Clone, Copy, Debug, PartialEq, Eq, Structural)]
pub enum KeyEventType {
    Release,
    Press,
    Repeat,
    Unknown(i32),
}

/// The raw event value written for a key event of the given kind.
pub open spec fn event_type_value(t: KeyEventType) -> i32 {
    match t {
        KeyEventType::Release => 0i32,
        KeyEventType::Press => 1i32,
        KeyEventType::Repeat => 2i32,
        KeyEventType::Unknown(n) => n,
    }
}

impl KeyEventType {
    /// Classifies a raw event value.
    pub fn from_value(value: i32) -> (r: Self)
        ensures
            r == (match value {
                0i32 => KeyEventType::Release,
                1i32 => KeyEventType::Press,
                2i32 => KeyEventType::Repeat,
                _ => KeyEventType::Unknown(value),
            }),
    {
        match value {
            0 => KeyEventType::Release,
            1 => KeyEventType::Press,
            2 => KeyEventType::Repeat,
            _ => KeyEventType::Unknown(value),
        }
    }

    /// The raw event value of this kind.
    pub fn value(&self) -> (r: i32)
        ensures
            r == (match self {
                KeyEventType::Release => 0i32,
                KeyEventType::Press => 1i32,
                KeyEventType::Repeat => 2i32,
                KeyEventType::Unknown(n) => *n,
            }),
    {
        match self {
            Self::Release => 0,
            Self::Press => 1,
            Self::Repeat => 2,
            Self::Unknown(n) => *n,
        }
    }
}

/// The default modifier codes as a sequence: FN and the left and right
/// ALT, META, CTRL and SHIFT keys.
pub open spec fn default_modifier_seq() -> Seq<EventCode> {
    seq![
        EventCode { family: EventType::Key, code: 464 },
        EventCode { family: EventType::Key, code: 56 },
        EventCode { family: EventType::Key, code: 100 },
        EventCode { family: EventType::Key, code: 125 },
        EventCode { family: EventType::Key, code: 126 },
        EventCode { family: EventType::Key, code: 29 },
        EventCode { family: EventType::Key, code: 97 },
        EventCode { family: EventType::Key, code: 42 },
        EventCode { family: EventType::Key, code: 54 },
    ]
}

/// The default modifier codes, used when the configuration names none:
/// FN and the left and right ALT, META, CTRL and SHIFT keys.
pub fn default_modifiers() -> (r: Vec<EventCode>)
    ensures
        r@ =~= default_modifier_seq(),
{
    let v: Vec<EventCode> = vec![
        EventCode { family: EventType::Key, code: 464 },
        EventCode { family: EventType::Key, code: 56 },
        EventCode { family: EventType::Key, code: 100 },
        EventCode { family: EventType::Key, code: 125 },
        EventCode { family: EventType::Key, code: 126 },
        EventCode { family: EventType::Key, code: 29 },
        EventCode { family: EventType::Key, code: 97 },
        EventCode { family: EventType::Key, code: 42 },
        EventCode { family: EventType::Key, code: 54 },
    ];
    v
}

/// Whether `code` is a modifier under the modifier set `mods`.
pub open spec fn spec_is_modifier(mods: Seq<EventCode>, code: EventCode) -> bool {
    mods.contains(code)
}

/// Whether `code` is a modifier under the modifier set `mods`.
pub fn is_modifier_in(mods: &Vec<EventCode>, code: &EventCode) -> (r: bool)
    ensures
        r == spec_is_modifier(mods@, *code),
{
    let mut i: usize = 0;
    while i < mods.len()
        invariant
            0 <= i <= mods@.len(),
            forall|j: int| 0 <= j < i ==> mods@[j] != *code,
        decreases mods@.len() - i,
    {
        if mods[i] == *code {
            return true;
        }
        i = i + 1;
    }
    false
}

/// Whether `key` is a modifier under the default modifier set.
pub fn is_modifier(key: &EventCode) -> (r: bool)
    ensures
        r == spec_is_default_modifier(*key),
{
    let mods = default_modifiers();
    is_modifier_in(&mods, key)
}

/// Whether `code` is one of the default modifier codes.
pub open spec fn spec_is_default_modifier(code: EventCode) -> bool {
    default_modifier_seq().contains(code)
}

/// Orders modifier keys ahead of non-modifier keys, under the default
/// modifier set; keys of one class compare equal.
pub fn modifiers_first(a: &KeyCode, b: &KeyCode) -> (r: core::cmp::Ordering)
    ensures
        r == spec_modifiers_first(*a, *b),
{
    let a_ismod = is_modifier(a);
    let b_ismod = is_modifier(b);
    if a_ismod && !b_ismod {
        core::cmp::Ordering::Less
    } else if !a_ismod && b_ismod {
        core::cmp::Ordering::Greater
    } else {
        core::cmp::Ordering::Equal
    }
}

/// What `modifiers_first` returns: modifiers sort ahead of non-modifiers
/// and the order within each class is left open.
pub open spec fn spec_modifiers_first(a: KeyCode, b: KeyCode) -> core::cmp::Ordering {
    if spec_is_default_modifier(a) && !spec_is_default_modifier(b) {
        core::cmp::Ordering::Less
    } else if !spec_is_default_modifier(a) && spec_is_default_modifier(b) {
        core::cmp::Ordering::Greater
    } else {
        core::cmp::Ordering::Equal
    }
}

/// Orders non-modifier keys ahead of modifier keys, under the default
/// modifier set: the reverse of `modifiers_first`.
pub fn modifiers_last(a: &KeyCode, b: &KeyCode) -> (r: core::cmp::Ordering)
    ensures
        r == spec_modifiers_first(*b, *a),
{
    let r = modifiers_first(a, b);
    match r {
        core::cmp::Ordering::Less => core::cmp::Ordering::Greater,
        core::cmp::Ordering::Equal => core::cmp::Ordering::Equal,
        core::cmp::Ordering::Greater => core::cmp::Ordering::Less,
    }
}

/// The synchronization marker that closes a batch of writes.
pub open spec fn spec_syn_event(time: TimeVal) -> InputEvent {
    InputEvent { time, event_code: EventCode { family: EventType::Syn, code: 0 }, value: 0 }
}

/// Whether an event is a synchronization marker.
pub open spec fn is_syn(e: InputEvent) -> bool {
    e.event_code.family == EventType::Syn
}

/// Builds a key event for `key` at `time` with the given kind.
pub fn make_event(key: KeyCode, time: &TimeVal, event_type: KeyEventType) -> (r: InputEvent)
    ensures
        r.time == *time,
        r.event_code == key,
        r == (InputEvent {
            time: *time,
            event_code: key,
            value: match event_type {
                KeyEventType::Release => 0i32,
                KeyEventType::Press => 1i32,
                KeyEventType::Repeat => 2i32,
                KeyEventType::Unknown(n) => n,
            },
        }),
{
    InputEvent { time: *time, event_code: key, value: event_type.value() }
}

/// The key events for the codes of `keys`, in order, at `time`, with the
/// raw value `value`.
pub open spec fn key_events(keys: Seq<EventCode>, time: TimeVal, value: i32) -> Seq<InputEvent> {
    keys.map_values(|k: EventCode| InputEvent { time, event_code: k, value })
}

/// A batch of key events followed by one synchronization marker, or
/// nothing when there are no keys to write.
pub open spec fn batch_events(keys: Seq<EventCode>, time: TimeVal, value: i32) -> Seq<InputEvent> {
    if keys.len() == 0 {
        Seq::empty()
    } else {
        key_events(keys, time, value).push(spec_syn_event(time))
    }
}

/// The key-family codes among `keys`, as a set.
pub open spec fn keyset(keys: Seq<EventCode>) -> Set<EventCode> {
    Set::new(|c: EventCode| keys.contains(c) && c.family == EventType::Key)
}

/// How one written event changes the set of keys held on the output
/// device: a key press or repeat marks the code held, a key release
/// unmarks it, and any other event leaves the set alone.
pub open spec fn apply_event(held: Set<EventCode>, e: InputEvent) -> Set<EventCode> {
    if e.event_code.family == EventType::Key {
        if e.value == 1 || e.value == 2 {
            held.insert(e.event_code)
        } else if e.value == 0 {
            held.remove(e.event_code)
        } else {
            held
        }
    } else {
        held
    }
}

/// `apply_event` folded over a whole sequence of written events.
pub open spec fn apply_events(held: Set<EventCode>, events: Seq<InputEvent>) -> Set<EventCode>
    decreases events.len(),
{
    if events.len() == 0 {
        held
    } else {
        apply_event(apply_events(held, events.drop_last()), events.last())
    }
}

/// A physical key that is currently held, with the time it went down.
#[derive(Clone, Copy, Debug, PartialEq, Eq, Structural)]
pub struct HeldKey {
    pub code: EventCode,
    pub pressed_at: TimeVal,
}

/// The remapping engine's state: the held physical keys with their press
/// times, the rule table and modifier set, the event families the rules
/// claim, the pending dual-role tap candidate, and the keys currently
/// held on the synthetic output.
pub struct InputMapper {
    pub input_state: Vec<HeldKey>,
    pub mappings: Vec<Mapping>,
    pub modifiers: Vec<EventCode>,
    pub mapped_types: Vec<EventType>,
    pub tapping: Option<EventCode>,
    pub output_keys: Vec<EventCode>,
}

impl InputMapper {
    /// The set of physical keys currently held.
    pub open spec fn held(self) -> Set<EventCode> {
        Set::new(
            |c: EventCode|
                exists|i: int| 0 <= i < self.input_state@.len() && self.input_state@[i].code == c,
        )
    }

    /// The set of keys currently held on the synthetic output.
    pub open spec fn output_set(self) -> Set<EventCode> {
        self.output_keys@.to_set()
    }

    /// The set of keys that should be held on the output for the current
    /// held set, under the engine's rules and modifiers.
    pub open spec fn desired(self) -> Set<EventCode> {
        spec_desired_keys(self.held(), self.mappings@, self.modifiers@)
    }

    /// The engine's well-formedness: no physical key is tracked twice,
    /// tracked press times are well-formed, the output set holds each key
    /// once and holds key-family codes only, and a pending tap candidate
    /// is a held key.
    pub open spec fn wf(self) -> bool {
        &&& self.input_state@.map_values(|h: HeldKey| h.code).no_duplicates()
        &&& forall|i: int|
            0 <= i < self.input_state@.len() ==> (#[trigger] self.input_state@[i]).pressed_at.wf()
        &&& forall|i: int|
            0 <= i < self.input_state@.len() ==> (#[trigger] self.input_state@[i]).code.family
                == EventType::Key
        &&& self.output_keys@.no_duplicates()
        &&& forall|i: int|
            0 <= i < self.output_keys@.len() ==> (#[trigger] self.output_keys@[i]).family
                == EventType::Key
        &&& match self.tapping {
            Some(k) => self.held().contains(k),
            None => true,
        }
    }

    /// The rule table, the modifier set and the mapped families, which no
    /// event ever changes.
    pub open spec fn same_table(self, other: InputMapper) -> bool {
        &&& self.mappings == other.mappings
        &&& self.modifiers == other.modifiers
        &&& self.mapped_types == other.mapped_types
    }

    /// The codes of the held physical keys, in tracking order.
    pub fn held_codes(&self) -> (r: Vec<EventCode>)
        requires
            self.wf(),
        ensures
            r@ == self.input_state@.map_values(|h: HeldKey| h.code),
            r@.no_duplicates(),
            r@.to_set() =~= self.held(),
    {
        let mut r: Vec<EventCode> = Vec::new();
        let mut i: usize = 0;
        while i < self.input_state.len()
            invariant
                0 <= i <= self.input_state@.len(),
                r@.len() == i,
                forall|j: int| 0 <= j < i ==> r@[j] == self.input_state@[j].code,
            decreases self.input_state@.len() - i,
        {
            r.push(self.input_state[i].code);
            i = i + 1;
        }
        proof {
            assert(r@ =~= self.input_state@.map_values(|h: HeldKey| h.code));
            assert forall|c: EventCode| r@.to_set().contains(c) implies self.held().contains(
                c,
            ) by {
                let j = choose|j: int| 0 <= j < r@.len() && r@[j] == c;
                assert(self.input_state@[j].code == c);
            }
            assert forall|c: EventCode| self.held().contains(c) implies r@.to_set().contains(
                c,
            ) by {
                let j = choose|j: int|
                    0 <= j < self.input_state@.len() && self.input_state@[j].code == c;
                assert(r@[j] == c);
            }
        }
        r
    }

    /// Whether the physical key `code` is currently tracked as held.
    pub fn contains_held(&self, code: &EventCode) -> (r: bool)
        ensures
            r == self.held().contains(*code),
    {
        let mut i: usize = 0;
        while i < self.input_state.len()
            invariant
                0 <= i <= self.input_state@.len(),
                forall|j: int| 0 <= j < i ==> (#[trigger] self.input_state@[j]).code != *code,
            decreases self.input_state@.len() - i,
        {
            if self.input_state[i].code == *code {
                return true;
            }
            i = i + 1;
        }
        false
    }

    /// Records a press of the physical key `code` at `time`. Idempotent
    /// on repeated presses without an intervening release; the latest
    /// press time wins.
    pub fn on_press(&mut self, code: EventCode, time: TimeVal)
        requires
            old(self).wf(),
            time.wf(),
            code.family == EventType::Key,
        ensures
            final(self).wf(),
            final(self).same_table(*old(self)),
            final(self).tapping == old(self).tapping,
            final(self).output_keys == old(self).output_keys,
            final(self).held() =~= old(self).held().insert(code),
            final(self).input_state@.to_set() =~= Set::new(
                |h: HeldKey| old(self).input_state@.to_set().contains(h) && h.code != code,
            ).insert(HeldKey { code, pressed_at: time }),
    {
        let ghost orig = self.input_state@;
        let mut i: usize = 0;
        let mut found: Option<usize> = None;
        while i < self.input_state.len()
            invariant
                0 <= i <= self.input_state@.len(),
                self.input_state@ == orig,
                match found {
                    Some(f) => f < i && orig[f as int].code == code,
                    None => forall|j: int| 0 <= j < i ==> (#[trigger] orig[j]).code != code,
                },
            decreases self.input_state@.len() - i,
        {
            if found.is_none() && self.input_state[i].code == code {
                found = Some(i);
            }
            i = i + 1;
        }
        match found {
            Some(f) => {
                self.input_state.remove(f);
                proof {
                    lemma_held_remove_at(orig, f as int);
                }
            },
            None => {},
        }
        let ghost mid = self.input_state@;
        proof {
            assert(forall|j: int| 0 <= j < mid.len() ==> (#[trigger] mid[j]).code != code);
        }
        self.input_state.push(HeldKey { code, pressed_at: time });
        proof {
            let fin = self.input_state@;
            assert(forall|j: int| 0 <= j < mid.len() ==> fin[j] == mid[j]);
            assert(fin[mid.len() as int] == HeldKey { code, pressed_at: time });
            assert(fin.map_values(|h: HeldKey| h.code) =~= mid.map_values(
                |h: HeldKey| h.code,
            ).push(code));
            assert(fin.map_values(|h: HeldKey| h.code).no_duplicates()) by {
                let mmc = mid.map_values(|h: HeldKey| h.code);
                assert forall|j: int| 0 <= j < mid.len() implies #[trigger] mmc[j] != code by {
                    assert(mid[j].code != code);
                }
            }
            assert(final(self).held() =~= old(self).held().insert(code)) by {
                assert forall|c: EventCode| final(self).held().contains(c) implies old(self).held().insert(code).contains(c) by {
                    let j = choose|j: int| 0 <= j < fin.len() && fin[j].code == c;
                    if j < mid.len() {
                        assert(mid[j].code == c);
                        assert(mid.to_set().contains(mid[j]));
                        assert(orig.to_set().contains(mid[j])) by {
                            if found is Some {
                            } else {
                                assert(mid == orig);
                            }
                        }
                        let k = choose|k: int| 0 <= k < orig.len() && orig[k] == mid[j];
                        assert(old(self).held().contains(c));
                    }
                }
                assert forall|c: EventCode|
                    old(self).held().insert(code).contains(c) implies final(self).held().contains(c) by {
                    if c == code {
                        assert(fin[mid.len() as int].code == code);
                    } else {
                        let k = choose|k: int| 0 <= k < orig.len() && orig[k].code == c;
                        assert(mid.to_set().contains(orig[k])) by {
                            if found is Some {
                                let f = found->0;
                                assert(orig[k] != orig[f as int]) by {
                                    assert(orig.map_values(|h: HeldKey| h.code)[k] == c);
                                }
                            } else {
                                assert(mid == orig);
                            }
                        }
                        let j = choose|j: int| 0 <= j < mid.len() && mid[j] == orig[k];
                        assert(fin[j] == orig[k]);
                    }
                }
            }
            assert(final(self).input_state@.to_set() =~= Set::new(
                |h: HeldKey| old(self).input_state@.to_set().contains(h) && h.code != code,
            ).insert(HeldKey { code, pressed_at: time })) by {
                assert forall|h: HeldKey| fin.to_set().contains(h) implies Set::new(
                    |h: HeldKey| orig.to_set().contains(h) && h.code != code,
                ).insert(HeldKey { code, pressed_at: time }).contains(h) by {
                    let j = choose|j: int| 0 <= j < fin.len() && fin[j] == h;
                    if j < mid.len() {
                        assert(mid[j] == h);
                        assert(mid[j].code != code);
                        assert(mid.to_set().contains(h));
                        if found is Some {
                        } else {
                            assert(mid == orig);
                        }
                    }
                }
                assert forall|h: HeldKey|
                    Set::new(|h: HeldKey| orig.to_set().contains(h) && h.code != code).insert(
                        HeldKey { code, pressed_at: time },
                    ).contains(h) implies fin.to_set().contains(h) by {
                    if h == (HeldKey { code, pressed_at: time }) {
                        assert(fin[mid.len() as int] == h);
                    } else {
                        assert(orig.to_set().contains(h) && h.code != code);
                        let k = choose|k: int| 0 <= k < orig.len() && orig[k] == h;
                        assert(mid.to_set().contains(h)) by {
                            if found is Some {
                                let f = found->0;
                                assert(orig[k] != orig[f as int]);
                            } else {
                                assert(mid == orig);
                            }
                        }
                        let j = choose|j: int| 0 <= j < mid.len() && mid[j] == h;
                        assert(fin[j] == h);
                    }
                }
            }
        }
    }

    /// Removes the physical key `code` from the held set and returns the
    /// recorded press time, or nothing when the key was not tracked.
    pub fn on_release(&mut self, code: &EventCode) -> (r: Option<TimeVal>)
        requires
            old(self).wf(),
            old(self).tapping != Some(*code),
        ensures
            final(self).wf(),
            final(self).same_table(*old(self)),
            final(self).tapping == old(self).tapping,
            final(self).output_keys == old(self).output_keys,
            match r {
                None => *final(self) == *old(self) && !old(self).held().contains(*code),
                Some(t) => {
                    &&& t.wf()
                    &&& old(self).input_state@.to_set().contains(
                        HeldKey { code: *code, pressed_at: t },
                    )
                    &&& final(self).held() =~= old(self).held().remove(*code)
                    &&& final(self).input_state@.to_set() =~= old(self).input_state@.to_set().remove(HeldKey { code: *code, pressed_at: t })
                },
            },
    {
        let ghost orig = self.input_state@;
        let mut i: usize = 0;
        let mut found: Option<usize> = None;
        while i < self.input_state.len()
            invariant
                0 <= i <= self.input_state@.len(),
                self.input_state@ == orig,
                match found {
                    Some(f) => f < i && orig[f as int].code == *code,
                    None => forall|j: int| 0 <= j < i ==> (#[trigger] orig[j]).code != *code,
                },
            decreases self.input_state@.len() - i,
        {
            if found.is_none() && self.input_state[i].code == *code {
                found = Some(i);
            }
            i = i + 1;
        }
        match found {
            Some(f) => {
                let t = self.input_state[f].pressed_at;
                self.input_state.remove(f);
                proof {
                    lemma_held_remove_at(orig, f as int);
                    let fin = self.input_state@;
                    assert(orig[f as int] == HeldKey { code: *code, pressed_at: t });
                    assert(orig.to_set().contains(HeldKey { code: *code, pressed_at: t }));
                    assert(final(self).held() =~= old(self).held().remove(*code)) by {
                        assert forall|c: EventCode| final(self).held().contains(c) implies old(self).held().remove(*code).contains(c) by {
                            let j = choose|j: int| 0 <= j < fin.len() && fin[j].code == c;
                            let j0 = if j < f {
                                j as int
                            } else {
                                j + 1
                            };
                            assert(fin[j] == orig[j0]);
                            assert(fin[j].code != *code);
                        }
                        assert forall|c: EventCode|
                            old(self).held().remove(*code).contains(c) implies final(self).held().contains(c) by {
                            let k = choose|k: int| 0 <= k < orig.len() && orig[k].code == c;
                            assert(k != f);
                            if k < f {
                                assert(fin[k] == orig[k]);
                            } else {
                                assert(fin[k - 1] == orig[k]);
                            }
                        }
                    }
                    assert forall|j: int| 0 <= j < fin.len() implies (
                    #[trigger] fin[j]).pressed_at.wf() by {
                        let j0 = if j < f {
                            j as int
                        } else {
                            j + 1
                        };
                        assert(fin[j] == orig[j0]);
                    }
                    match old(self).tapping {
                        Some(k) => {
                            assert(final(self).held().contains(k));
                        },
                        None => {},
                    }
                }
                Some(t)
            },
            None => {
                proof {
                    assert(!old(self).held().contains(*code)) by {
                        if old(self).held().contains(*code) {
                            let j = choose|j: int|
                                0 <= j < orig.len() && orig[j].code == *code;
                        }
                    }
                }
                None
            },
        }
    }

    /// Writes one event into the output buffer and updates the held-key
    /// bookkeeping of the synthetic output accordingly.
    fn write_event(&mut self, event: &InputEvent, out: &mut Vec<InputEvent>)
        requires
            old(self).wf(),
        ensures
            final(self).wf(),
            final(self).same_table(*old(self)),
            final(self).input_state == old(self).input_state,
            final(self).tapping == old(self).tapping,
            final(out)@ == old(out)@.push(*event),
            final(self).output_set() =~= apply_event(old(self).output_set(), *event),
    {
        out.push(*event);
        if event.event_code.family == EventType::Key {
            let et = KeyEventType::from_value(event.value);
            match et {
                KeyEventType::Press | KeyEventType::Repeat => {
                    crate::resolver::vec_insert_code(&mut self.output_keys, &event.event_code);
                },
                KeyEventType::Release => {
                    crate::resolver::vec_remove_code(&mut self.output_keys, &event.event_code);
                },
                KeyEventType::Unknown(_) => {},
            }
        }
        proof {
            assert forall|i: int| 0 <= i < self.output_keys@.len() implies (
            #[trigger] self.output_keys@[i]).family == EventType::Key by {
                assert(self.output_keys@.contains(self.output_keys@[i]));
                assert(self.output_keys@.to_set().contains(self.output_keys@[i]));
                if old(self).output_keys@.to_set().contains(self.output_keys@[i]) {
                    let j = choose|j: int|
                        0 <= j < old(self).output_keys@.len() && old(self).output_keys@[j]
                            == self.output_keys@[i];
                    assert(old(self).output_keys@[j].family == EventType::Key);
                }
            }
        }
    }

    /// Appends a synchronization marker to the output buffer.
    fn generate_sync_event(&self, time: &TimeVal, out: &mut Vec<InputEvent>)
        ensures
            final(out)@ == old(out)@.push(spec_syn_event(*time)),
    {
        out.push(InputEvent {
            time: *time,
            event_code: EventCode { family: EventType::Syn, code: 0 },
            value: 0,
        });
    }

    /// Writes one event of the given kind for every key of `keys`, in
    /// order, and closes the batch with a synchronization marker.
    fn emit_keys(
        &mut self,
        keys: &Vec<EventCode>,
        time: &TimeVal,
        event_type: KeyEventType,
        out: &mut Vec<InputEvent>,
    )
        requires
            old(self).wf(),
        ensures
            final(self).wf(),
            final(self).same_table(*old(self)),
            final(self).input_state == old(self).input_state,
            final(self).tapping == old(self).tapping,
            final(out)@ == old(out)@ + key_events(keys@, *time, event_type_value(event_type)).push(
                spec_syn_event(*time),
            ),
            (event_type_value(event_type) == 1 || event_type_value(event_type) == 2) ==> final(
                self
            ).output_set() =~= old(self).output_set().union(keyset(keys@)),
            event_type_value(event_type) == 0 ==> final(self).output_set() =~= old(
                self
            ).output_set().difference(keyset(keys@)),
            !(event_type_value(event_type) == 0 || event_type_value(event_type) == 1
                || event_type_value(event_type) == 2) ==> final(self).output_set() =~= old(
                self
            ).output_set(),
    {
        let ghost val: i32 = event_type_value(event_type);
        let ghost base = out@;
        let ghost start = old(self).output_set();
        let mut i: usize = 0;
        while i < keys.len()
            invariant
                0 <= i <= keys@.len(),
                self.wf(),
                self.same_table(*old(self)),
                self.input_state == old(self).input_state,
                self.tapping == old(self).tapping,
                val == event_type_value(event_type),
                out@ == base + key_events(keys@.subrange(0, i as int), *time, val),
                (val == 1 || val == 2) ==> self.output_set() =~= start.union(
                    keyset(keys@.subrange(0, i as int)),
                ),
                val == 0 ==> self.output_set() =~= start.difference(
                    keyset(keys@.subrange(0, i as int)),
                ),
                !(val == 0 || val == 1 || val == 2) ==> self.output_set() =~= start,
            decreases keys@.len() - i,
        {
            let ghost pre_set = self.output_set();
            let e = make_event(keys[i], time, event_type);
            self.write_event(&e, out);
            proof {
                assert(keys@.subrange(0, i + 1) =~= keys@.subrange(0, i as int).push(
                    keys@[i as int],
                ));
                assert(key_events(keys@.subrange(0, i + 1), *time, val) =~= key_events(
                    keys@.subrange(0, i as int),
                    *time,
                    val,
                ).push(e));
                assert(out@ == base + key_events(keys@.subrange(0, i + 1), *time, val));
                lemma_keyset_push(keys@.subrange(0, i as int), keys@[i as int]);
                if val == 1 || val == 2 {
                    assert(self.output_set() =~= start.union(
                        keyset(keys@.subrange(0, i + 1)),
                    ));
                } else if val == 0 {
                    assert(self.output_set() =~= start.difference(
                        keyset(keys@.subrange(0, i + 1)),
                    ));
                } else {
                    assert(self.output_set() =~= start);
                }
            }
            i = i + 1;
        }
        proof {
            assert(keys@.subrange(0, keys@.len() as int) =~= keys@);
        }
        self.generate_sync_event(time, out);
        proof {
            assert(out@ =~= base + key_events(keys@, *time, val).push(spec_syn_event(*time)));
        }
    }

    /// Writes the event followed by a synchronization marker.
    fn write_event_and_sync(&mut self, event: &InputEvent, out: &mut Vec<InputEvent>)
        requires
            old(self).wf(),
        ensures
            final(self).wf(),
            final(self).same_table(*old(self)),
            final(self).input_state == old(self).input_state,
            final(self).tapping == old(self).tapping,
            final(out)@ == old(out)@.push(*event).push(spec_syn_event(event.time)),
            final(self).output_set() =~= apply_event(old(self).output_set(), *event),
    {
        self.write_event(event, out);
        self.generate_sync_event(&event.time, out);
    }

    /// Builds an engine for the given rule table and configured modifier
    /// set; an empty modifier set selects the defaults. The engine starts
    /// with nothing held, nothing pressed on the output, and no pending
    /// tap candidate.
    pub fn new(mappings: Vec<Mapping>, modifiers: Vec<EventCode>) -> (r: Self)
        ensures
            r.wf(),
            r.mappings == mappings,
            r.modifiers@ == if modifiers@.len() == 0 {
                default_modifier_seq()
            } else {
                modifiers@
            },
            r.input_state@.len() == 0,
            r.output_keys@.len() == 0,
            r.tapping is None,
            r.mapped_types@.to_set() =~= spec_mapped_types(mappings@),
    {
        let modifiers = if modifiers.len() == 0 {
            default_modifiers()
        } else {
            modifiers
        };
        let mapped_types = compute_mapped_types(&mappings);
        InputMapper {
            input_state: Vec::new(),
            mappings,
            modifiers,
            mapped_types,
            tapping: None,
            output_keys: Vec::new(),
        }
    }

    /// Whether events of the given family are claimed by some rule's
    /// input side.
    pub fn is_mapped_type(&self, t: &EventType) -> (r: bool)
        ensures
            r == self.mapped_types@.contains(*t),
    {
        let mut i: usize = 0;
        while i < self.mapped_types.len()
            invariant
                0 <= i <= self.mapped_types@.len(),
                forall|j: int| 0 <= j < i ==> self.mapped_types@[j] != *t,
            decreases self.mapped_types@.len() - i,
        {
            if self.mapped_types[i] == *t {
                return true;
            }
            i = i + 1;
        }
        false
    }

    /// Computes the difference between the desired set of output keys and
    /// the keys currently pressed on the output. Releases what should not
    /// be pressed — non-modifiers first, so that no stray character leaks
    /// out of a combination — then presses what is missing — modifiers
    /// first, for the same reason. Each non-empty batch is closed by one
    /// synchronization marker. Emitting nothing when the output already
    /// matches makes reconciliation idempotent.
    pub fn compute_and_apply_keys(&mut self, time: &TimeVal, out: &mut Vec<InputEvent>)
        requires
            old(self).wf(),
        ensures
            final(self).wf(),
            final(self).same_table(*old(self)),
            final(self).input_state == old(self).input_state,
            final(self).tapping == old(self).tapping,
            final(self).output_set() =~= key_part(old(self).desired()),
            final(out)@.len() >= old(out)@.len(),
            final(out)@.subrange(0, old(out)@.len() as int) == old(out)@,
            is_reconcile_output(
                final(out)@.skip(old(out)@.len() as int),
                old(self).output_set().difference(old(self).desired()),
                old(self).desired().difference(old(self).output_set()),
                old(self).modifiers@,
                *time,
            ),
            old(self).output_set() =~= old(self).desired() ==> final(out)@ == old(out)@,
    {
        let ghost pre = *old(self);
        let ghost base = out@;
        let held = self.held_codes();
        let desired = compute_keys(&held, &self.mappings, &self.modifiers);
        let to_release = crate::resolver::vec_difference(&self.output_keys, &desired);
        let to_press = crate::resolver::vec_difference(&desired, &self.output_keys);
        let ghost rel = pre.output_set().difference(pre.desired());
        let ghost prs = pre.desired().difference(pre.output_set());
        proof {
            assert(to_release@.to_set() =~= rel);
            assert(to_press@.to_set() =~= prs);
        }
        let rel_sorted = partition_by_modifiers(&to_release, &self.modifiers, false);
        let prs_sorted = partition_by_modifiers(&to_press, &self.modifiers, true);
        proof {
            lemma_partition_props(to_release@, self.modifiers@);
            lemma_partition_props(to_press@, self.modifiers@);
        }
        if to_release.len() > 0 {
            self.emit_keys(&rel_sorted, time, KeyEventType::Release, out);
        }
        if to_press.len() > 0 {
            self.emit_keys(&prs_sorted, time, KeyEventType::Press, out);
        }
        proof {
            assert(keyset(rel_sorted@) =~= key_part(rel_sorted@.to_set()));
            assert(keyset(prs_sorted@) =~= key_part(prs_sorted@.to_set()));
            let appended = out@.skip(base.len() as int);
            assert(out@.subrange(0, base.len() as int) =~= base);
            let rs: Seq<EventCode> = if rel.is_empty() {
                Seq::empty()
            } else {
                rel_sorted@
            };
            let ps: Seq<EventCode> = if prs.is_empty() {
                Seq::empty()
            } else {
                prs_sorted@
            };
            assert(rel.is_empty() ==> to_release@.len() == 0);
            assert(prs.is_empty() ==> to_press@.len() == 0);
            assert(is_release_order(rs, rel, pre.modifiers@)) by {
                if rel.is_empty() {
                    assert(Seq::<EventCode>::empty().to_set() =~= rel);
                }
            }
            assert(is_press_order(ps, prs, pre.modifiers@)) by {
                if prs.is_empty() {
                    assert(Seq::<EventCode>::empty().to_set() =~= prs);
                }
            }
            assert(appended =~= batch_events(rs, *time, 0) + batch_events(ps, *time, 1)) by {
                if to_release@.len() == 0 && to_press@.len() == 0 {
                    assert(rel_sorted@.len() == 0 && prs_sorted@.len() == 0);
                    assert(rs.len() == 0 && ps.len() == 0);
                } else if to_release@.len() == 0 {
                    assert(rel_sorted@.len() == 0);
                    assert(!prs.is_empty()) by {
                        assert(to_press@.to_set().contains(to_press@[0]));
                    }
                } else if to_press@.len() == 0 {
                    assert(prs_sorted@.len() == 0);
                    assert(!rel.is_empty()) by {
                        assert(to_release@.to_set().contains(to_release@[0]));
                    }
                } else {
                    assert(!rel.is_empty()) by {
                        assert(to_release@.to_set().contains(to_release@[0]));
                    }
                    assert(!prs.is_empty()) by {
                        assert(to_press@.to_set().contains(to_press@[0]));
                    }
                }
            }
            assert(is_reconcile_output(appended, rel, prs, pre.modifiers@, *time));
            assert(final(self).output_set() =~= key_part(pre.desired())) by {
                lemma_reconcile_output_set(
                    pre.output_set(),
                    pre.desired(),
                    rel_sorted@.to_set(),
                    prs_sorted@.to_set(),
                    final(self).output_set(),
                    to_release@.len() == 0,
                    to_press@.len() == 0,
                );
            }
            if pre.output_set() =~= pre.desired() {
                assert(rel.is_empty() && prs.is_empty());
                assert(to_release@.len() == 0) by {
                    if to_release@.len() > 0 {
                        assert(to_release@.to_set().contains(to_release@[0]));
                    }
                }
                assert(to_press@.len() == 0) by {
                    if to_press@.len() > 0 {
                        assert(to_press@.to_set().contains(to_press@[0]));
                    }
                }
                assert(out@ =~= base);
            }
        }
    }
}

/// Whether the rule is a dual-role rule for the physical key `code`.
pub open spec fn spec_dual_matches(m: Mapping, code: EventCode) -> bool {
    match m {
        Mapping::DualRole { input, .. } => input == code,
        Mapping::Remap { .. } => false,
    }
}

/// Whether the key reference claims an event with this code and value:
/// the codes must be equal, and for non-key codes the reference's
/// direction filter must pass — a zero scale matches either direction,
/// otherwise the signs of the scale and of the value must agree.
pub open spec fn spec_wrapper_matches(w: KeyCodeWrapper, code: EventCode, value: i32) -> bool {
    w.code == code && (code.family == EventType::Key || w.scale == 0 || ((w.scale < 0) == (value
        < 0)))
}

/// Whether the rule is a remap rule that claims an event with this code
/// and value while the keys of `held` are down: some input reference
/// matches the event, and every input reference naming another code is
/// currently held.
pub open spec fn spec_remap_matches(
    m: Mapping,
    code: EventCode,
    value: i32,
    held: Set<EventCode>,
) -> bool {
    match m {
        Mapping::Remap { input, .. } => {
            &&& exists|j: int|
                0 <= j < input@.len() && spec_wrapper_matches(#[trigger] input@[j], code, value)
            &&& forall|j: int|
                0 <= j < input@.len() && (#[trigger] input@[j]).code != code ==> held.contains(
                    input@[j].code,
                )
        },
        Mapping::DualRole { .. } => false,
    }
}

/// The number of input references of a remap rule; dual-role rules count
/// as a single input.
pub open spec fn spec_input_len(m: Mapping) -> nat {
    match m {
        Mapping::Remap { input, .. } => input@.len(),
        Mapping::DualRole { .. } => 1,
    }
}

/// Which rule index `lookup_mapping` reports for an event with this code
/// and value in the given engine state: a dual-role rule for the code
/// wins outright, the earliest one first; otherwise, among the matching
/// remap rules, one with the most input references, the earliest such.
pub open spec fn is_lookup_result(m: InputMapper, code: EventCode, value: i32, i: int) -> bool {
    &&& 0 <= i < m.mappings@.len()
    &&& if exists|j: int| 0 <= j < m.mappings@.len() && spec_dual_matches(#[trigger] m.mappings@[j], code) {
        spec_dual_matches(m.mappings@[i], code) && forall|j: int|
            0 <= j < i ==> !spec_dual_matches(#[trigger] m.mappings@[j], code)
    } else {
        &&& spec_remap_matches(m.mappings@[i], code, value, m.held())
        &&& forall|j: int|
            0 <= j < m.mappings@.len() && spec_remap_matches(
                #[trigger] m.mappings@[j],
                code,
                value,
                m.held(),
            ) ==> spec_input_len(m.mappings@[j]) <= spec_input_len(m.mappings@[i])
        &&& forall|j: int|
            0 <= j < i && spec_remap_matches(#[trigger] m.mappings@[j], code, value, m.held())
                ==> spec_input_len(m.mappings@[j]) < spec_input_len(m.mappings@[i])
    }
}

impl InputMapper {
    /// The index of the first dual-role rule whose input is `code`, if
    /// any. A dual-role rule has the highest precedence.
    pub fn lookup_dual_role_mapping(&self, code: &KeyCode) -> (r: Option<usize>)
        ensures
            match r {
                Some(i) => i < self.mappings@.len() && spec_dual_matches(
                    self.mappings@[i as int],
                    *code,
                ) && forall|j: int|
                    0 <= j < i ==> !spec_dual_matches(#[trigger] self.mappings@[j], *code),
                None => forall|j: int|
                    0 <= j < self.mappings@.len() ==> !spec_dual_matches(
                        #[trigger] self.mappings@[j],
                        *code,
                    ),
            },
    {
        let mut i: usize = 0;
        while i < self.mappings.len()
            invariant
                0 <= i <= self.mappings@.len(),
                forall|j: int|
                    0 <= j < i ==> !spec_dual_matches(#[trigger] self.mappings@[j], *code),
            decreases self.mappings@.len() - i,
        {
            match &self.mappings[i] {
                Mapping::DualRole { input, .. } => {
                    if *input == *code {
                        return Some(i);
                    }
                },
                Mapping::Remap { .. } => {},
            }
            i = i + 1;
        }
        None
    }

    /// Whether the remap input list `input` claims an event with this
    /// code and value in the current state.
    fn remap_input_matches(&self, input: &Vec<KeyCodeWrapper>, code: &EventCode, value: i32) -> (r:
        bool)
        ensures
            r == ((exists|j: int|
                0 <= j < input@.len() && spec_wrapper_matches(#[trigger] input@[j], *code, value))
                && (forall|j: int|
                0 <= j < input@.len() && (#[trigger] input@[j]).code != *code
                    ==> self.held().contains(input@[j].code))),
    {
        let mut code_matched = false;
        let mut j: usize = 0;
        while j < input.len()
            invariant
                0 <= j <= input@.len(),
                code_matched == (exists|k: int|
                    0 <= k < j && spec_wrapper_matches(#[trigger] input@[k], *code, value)),
            decreases input@.len() - j,
        {
            let w = &input[j];
            if w.code == *code && (code.family == EventType::Key || w.scale == 0 || ((w.scale
                < 0) == (value < 0))) {
                code_matched = true;
                proof {
                    assert(spec_wrapper_matches(input@[j as int], *code, value));
                }
            }
            j = j + 1;
        }
        if !code_matched {
            return false;
        }
        let mut j: usize = 0;
        while j < input.len()
            invariant
                0 <= j <= input@.len(),
                forall|k: int|
                    0 <= k < j && (#[trigger] input@[k]).code != *code ==> self.held().contains(
                        input@[k].code,
                    ),
            decreases input@.len() - j,
        {
            if input[j].code != *code && !self.contains_held(&input[j].code) {
                return false;
            }
            j = j + 1;
        }
        true
    }

    /// Finds the best rule for an event with this code and value: a
    /// dual-role rule for the code wins outright; otherwise the matching
    /// remap rule with the largest input chord — the most specific one —
    /// taking the earliest on a tie.
    pub fn lookup_mapping(&self, code: &KeyCode, value: i32) -> (r: Option<usize>)
        ensures
            match r {
                Some(i) => is_lookup_result(*self, *code, value, i as int),
                None => forall|j: int|
                    0 <= j < self.mappings@.len() ==> !spec_dual_matches(
                        #[trigger] self.mappings@[j],
                        *code,
                    ) && !spec_remap_matches(self.mappings@[j], *code, value, self.held()),
            },
    {
        let mut best: Option<usize> = None;
        let mut i: usize = 0;
        while i < self.mappings.len()
            invariant
                0 <= i <= self.mappings@.len(),
                forall|j: int|
                    0 <= j < i ==> !spec_dual_matches(#[trigger] self.mappings@[j], *code),
                match best {
                    Some(b) => {
                        &&& b < i
                        &&& spec_remap_matches(
                            self.mappings@[b as int],
                            *code,
                            value,
                            self.held(),
                        )
                        &&& forall|j: int|
                            0 <= j < i && spec_remap_matches(
                                #[trigger] self.mappings@[j],
                                *code,
                                value,
                                self.held(),
                            ) ==> spec_input_len(self.mappings@[j]) <= spec_input_len(
                                self.mappings@[b as int],
                            )
                        &&& forall|j: int|
                            0 <= j < b && spec_remap_matches(
                                #[trigger] self.mappings@[j],
                                *code,
                                value,
                                self.held(),
                            ) ==> spec_input_len(self.mappings@[j]) < spec_input_len(
                                self.mappings@[b as int],
                            )
                    },
                    None => forall|j: int|
                        0 <= j < i ==> !spec_remap_matches(
                            #[trigger] self.mappings@[j],
                            *code,
                            value,
                            self.held(),
                        ),
                },
            decreases self.mappings@.len() - i,
        {
            match &self.mappings[i] {
                Mapping::DualRole { input, .. } => {
                    if *input == *code {
                        return Some(i);
                    }
                },
                Mapping::Remap { input, .. } => {
                    if self.remap_input_matches(input, code, value) {
                        proof {
                            assert(spec_remap_matches(
                                self.mappings@[i as int],
                                *code,
                                value,
                                self.held(),
                            ));
                        }
                        let better = match best {
                            None => true,
                            Some(b) => {
                                let blen = match &self.mappings[b] {
                                    Mapping::Remap { input: binput, .. } => binput.len(),
                                    Mapping::DualRole { .. } => 1,
                                };
                                input.len() > blen
                            },
                        };
                        if better {
                            best = Some(i);
                        }
                    }
                },
            }
            i = i + 1;
        }
        best
    }
}

/// The hold keys of a dual-role rule, or nothing for a remap rule.
pub open spec fn dual_hold(m: Mapping) -> Seq<EventCode> {
    match m {
        Mapping::DualRole { hold, .. } => hold@,
        Mapping::Remap { .. } => Seq::empty(),
    }
}

/// The tap keys of a dual-role rule, or nothing for a remap rule.
pub open spec fn dual_tap(m: Mapping) -> Seq<EventCode> {
    match m {
        Mapping::DualRole { tap, .. } => tap@,
        Mapping::Remap { .. } => Seq::empty(),
    }
}

/// The input references of a remap rule, or nothing for a dual-role rule.
pub open spec fn remap_input(m: Mapping) -> Seq<KeyCodeWrapper> {
    match m {
        Mapping::Remap { input, .. } => input@,
        Mapping::DualRole { .. } => Seq::empty(),
    }
}

/// The output references of a remap rule, or nothing for a dual-role rule.
pub open spec fn remap_output(m: Mapping) -> Seq<KeyCodeWrapper> {
    match m {
        Mapping::Remap { output, .. } => output@,
        Mapping::DualRole { .. } => Seq::empty(),
    }
}

/// Copies a sequence of codes.
fn clone_codes(v: &Vec<EventCode>) -> (r: Vec<EventCode>)
    ensures
        r@ == v@,
{
    let mut r: Vec<EventCode> = Vec::new();
    let mut i: usize = 0;
    while i < v.len()
        invariant
            0 <= i <= v@.len(),
            r@ == v@.subrange(0, i as int),
        decreases v@.len() - i,
    {
        r.push(v[i]);
        proof {
            assert(r@ =~= v@.subrange(0, i + 1));
        }
        i = i + 1;
    }
    proof {
        assert(r@ =~= v@);
    }
    r
}

/// Copies a sequence of key references.
fn clone_wrappers(v: &Vec<KeyCodeWrapper>) -> (r: Vec<KeyCodeWrapper>)
    ensures
        r@ == v@,
{
    let mut r: Vec<KeyCodeWrapper> = Vec::new();
    let mut i: usize = 0;
    while i < v.len()
        invariant
            0 <= i <= v@.len(),
            r@ == v@.subrange(0, i as int),
        decreases v@.len() - i,
    {
        r.push(v[i]);
        proof {
            assert(r@ =~= v@.subrange(0, i + 1));
        }
        i = i + 1;
    }
    proof {
        assert(r@ =~= v@);
    }
    r
}

/// The codes named by a sequence of key references, in order.
pub open spec fn wrapper_codes(s: Seq<KeyCodeWrapper>) -> Seq<EventCode> {
    s.map_values(|w: KeyCodeWrapper| w.code)
}

/// Extracts the codes of a sequence of key references, in order.
fn collect_wrapper_codes(v: &Vec<KeyCodeWrapper>) -> (r: Vec<EventCode>)
    ensures
        r@ == wrapper_codes(v@),
{
    let mut r: Vec<EventCode> = Vec::new();
    let mut i: usize = 0;
    while i < v.len()
        invariant
            0 <= i <= v@.len(),
            r@.len() == i,
            forall|j: int| 0 <= j < i ==> r@[j] == v@[j].code,
        decreases v@.len() - i,
    {
        r.push(v[i].code);
        i = i + 1;
    }
    proof {
        assert(r@ =~= wrapper_codes(v@));
    }
    r
}

/// Truncating division, as the hardware divides: the quotient of the
/// magnitudes, negative when exactly one operand is negative.
pub open spec fn trunc_div(a: int, b: int) -> int
    recommends
        b != 0,
{
    let q = abs_int(a) / abs_int(b);
    if (a < 0) != (b < 0) {
        -q
    } else {
        q
    }
}

/// The absolute value of an integer.
pub open spec fn abs_int(a: int) -> int {
    if a < 0 {
        -a
    } else {
        a
    }
}

/// Clamps a mathematical integer into the range of an `i32`.
pub open spec fn clamp_i32(a: int) -> int {
    if a > 0x7fff_ffff {
        0x7fff_ffff
    } else if a < -0x8000_0000 {
        -0x8000_0000
    } else {
        a
    }
}

/// The value written for an axis-to-axis remap: the event value divided
/// by the input scale and multiplied by the output scale, where a zero
/// scale counts as one; the result saturates at the `i32` limits.
pub open spec fn spec_scaled_value(v: int, in_scale: int, out_scale: int) -> int {
    let is0 = if in_scale == 0 {
        1int
    } else {
        in_scale
    };
    let os0 = if out_scale == 0 {
        1int
    } else {
        out_scale
    };
    clamp_i32(trunc_div(v, is0) * os0)
}

/// Computes the scaled value of an axis remap.
pub fn scale_axis_value(v: i32, in_scale: i32, out_scale: i32) -> (r: i32)
    ensures
        r == spec_scaled_value(v as int, in_scale as int, out_scale as int),
{
    let is0: i64 = if in_scale == 0 {
        1
    } else {
        in_scale as i64
    };
    let os0: i64 = if out_scale == 0 {
        1
    } else {
        out_scale as i64
    };
    let av: u64 = if v < 0 {
        (-(v as i64)) as u64
    } else {
        v as u64
    };
    let ab: u64 = if is0 < 0 {
        (-is0) as u64
    } else {
        is0 as u64
    };
    let ao: u64 = if os0 < 0 {
        (-os0) as u64
    } else {
        os0 as u64
    };
    let q: u64 = av / ab;
    proof {
        assert(q == abs_int(v as int) / abs_int(
            if in_scale == 0 {
                1int
            } else {
                in_scale as int
            },
        ));
        assert(q <= av) by {
            assert(av / ab <= av) by (nonlinear_arith)
                requires
                    ab >= 1,
            ;
        }
    }
    proof {
        assert(q <= 0x8000_0000u64 && ao <= 0x8000_0000u64);
        assert(q * ao <= 0x8000_0000u64 * 0x8000_0000u64) by (nonlinear_arith)
            requires
                q <= 0x8000_0000u64,
                ao <= 0x8000_0000u64,
        ;
    }
    let p: u64 = q * ao;
    let neg: bool = ((v < 0) != (is0 < 0)) != (os0 < 0);
    let signed: i64 = if neg {
        -(p as i64)
    } else {
        p as i64
    };
    proof {
        let vi = v as int;
        let isi: int = if in_scale == 0 {
            1int
        } else {
            in_scale as int
        };
        let osi: int = if out_scale == 0 {
            1int
        } else {
            out_scale as int
        };
        let tq = trunc_div(vi, isi);
        assert(abs_int(tq) == q);
        assert(tq * osi == (if ((vi < 0) != (isi < 0)) != (osi < 0) {
            -(abs_int(tq) * abs_int(osi))
        } else {
            abs_int(tq) * abs_int(osi)
        })) by (nonlinear_arith)
            requires
                tq == (if (vi < 0) != (isi < 0) {
                    -abs_int(tq)
                } else {
                    abs_int(tq)
                }),
                abs_int(tq) >= 0,
                abs_int(osi) >= 0,
                osi == (if osi < 0 {
                    -abs_int(osi)
                } else {
                    abs_int(osi)
                }),
        ;
        assert(p == abs_int(tq) * abs_int(osi)) by (nonlinear_arith)
            requires
                q == abs_int(tq),
                ao == abs_int(osi),
                p == q * ao,
                q >= 0,
                ao >= 0,
        ;
        assert(signed == tq * osi);
    }
    if signed > 0x7fff_ffff {
        0x7fff_ffff
    } else if signed < -0x8000_0000 {
        -2147483648
    } else {
        signed as i32
    }
}

/// The events an axis tick writes for the outputs of a matched axis
/// rule, in order: a press and a release for each key-family output, and
/// a single scaled event for each axis output.
pub open spec fn axis_events(
    outs: Seq<KeyCodeWrapper>,
    in_scale: i32,
    ev: InputEvent,
) -> Seq<InputEvent>
    decreases outs.len(),
{
    if outs.len() == 0 {
        Seq::empty()
    } else {
        let k = outs.last();
        axis_events(outs.drop_last(), in_scale, ev) + (if k.code.family == EventType::Key {
            seq![
                InputEvent { time: ev.time, event_code: k.code, value: 1 },
                InputEvent { time: ev.time, event_code: k.code, value: 0 },
            ]
        } else {
            seq![
                InputEvent {
                    time: ev.time,
                    event_code: k.code,
                    value: spec_scaled_value(
                        ev.value as int,
                        in_scale as int,
                        k.scale as int,
                    ) as i32,
                },
            ]
        })
    }
}

/// The event codes that the rules can emit: every hold and tap key of a
/// dual-role rule and every output code of a remap rule. Each of them
/// must be enabled on the synthetic device before it is created.
pub open spec fn spec_output_codes(maps: Seq<Mapping>) -> Set<EventCode> {
    Set::new(
        |c: EventCode|
            exists|i: int|
                0 <= i < maps.len() && (dual_hold(#[trigger] maps[i]).contains(c) || dual_tap(
                    maps[i],
                ).contains(c) || wrapper_codes(remap_output(maps[i])).contains(c)),
    )
}

/// Collects every code that the rules can emit, each once.
pub fn codes_to_enable(mappings: &Vec<Mapping>) -> (r: Vec<EventCode>)
    ensures
        r@.no_duplicates(),
        r@.to_set() =~= spec_output_codes(mappings@),
{
    let mut r: Vec<EventCode> = Vec::new();
    let mut i: usize = 0;
    while i < mappings.len()
        invariant
            0 <= i <= mappings@.len(),
            r@.no_duplicates(),
            forall|c: EventCode|
                r@.to_set().contains(c) ==> spec_output_codes(mappings@).contains(c),
            forall|k: int, j: int|
                0 <= k < i && 0 <= j < dual_hold(mappings@[k]).len() ==> r@.to_set().contains(
                    #[trigger] dual_hold(mappings@[k])[j],
                ),
            forall|k: int, j: int|
                0 <= k < i && 0 <= j < dual_tap(mappings@[k]).len() ==> r@.to_set().contains(
                    #[trigger] dual_tap(mappings@[k])[j],
                ),
            forall|k: int, j: int|
                0 <= k < i && 0 <= j < remap_output(mappings@[k]).len()
                    ==> r@.to_set().contains(
                    #[trigger] wrapper_codes(remap_output(mappings@[k]))[j],
                ),
        decreases mappings@.len() - i,
    {
        match &mappings[i] {
            Mapping::DualRole { hold, tap, .. } => {
                let mut j: usize = 0;
                while j < hold.len()
                    invariant
                        0 <= j <= hold@.len(),
                        0 <= i < mappings@.len(),
                        r@.no_duplicates(),
                        forall|c: EventCode|
                            r@.to_set().contains(c) ==> spec_output_codes(
                                mappings@,
                            ).contains(c),
                        forall|k: int, jj: int|
                            0 <= k < i && 0 <= jj < dual_hold(mappings@[k]).len()
                                ==> r@.to_set().contains(#[trigger] dual_hold(mappings@[k])[jj]),
                        forall|k: int, jj: int|
                            0 <= k < i && 0 <= jj < dual_tap(mappings@[k]).len()
                                ==> r@.to_set().contains(#[trigger] dual_tap(mappings@[k])[jj]),
                        forall|k: int, jj: int|
                            0 <= k < i && 0 <= jj < remap_output(mappings@[k]).len()
                                ==> r@.to_set().contains(
                                #[trigger] wrapper_codes(remap_output(mappings@[k]))[jj],
                            ),
                        forall|jj: int|
                            0 <= jj < j ==> r@.to_set().contains(
                                dual_hold(mappings@[i as int])[jj],
                            ),
                        hold@ == dual_hold(mappings@[i as int]),
                    decreases hold@.len() - j,
                {
                    crate::resolver::vec_insert_code(&mut r, &hold[j]);
                    proof {
                        assert(spec_output_codes(mappings@).contains(hold@[j as int])) by {
                            assert(dual_hold(mappings@[i as int]).contains(hold@[j as int]));
                        }
                    }
                    j = j + 1;
                }
                let mut j: usize = 0;
                while j < tap.len()
                    invariant
                        0 <= j <= tap@.len(),
                        0 <= i < mappings@.len(),
                        r@.no_duplicates(),
                        forall|c: EventCode|
                            r@.to_set().contains(c) ==> spec_output_codes(
                                mappings@,
                            ).contains(c),
                        forall|k: int, jj: int|
                            0 <= k < i && 0 <= jj < dual_hold(mappings@[k]).len()
                                ==> r@.to_set().contains(#[trigger] dual_hold(mappings@[k])[jj]),
                        forall|k: int, jj: int|
                            0 <= k < i && 0 <= jj < dual_tap(mappings@[k]).len()
                                ==> r@.to_set().contains(#[trigger] dual_tap(mappings@[k])[jj]),
                        forall|k: int, jj: int|
                            0 <= k < i && 0 <= jj < remap_output(mappings@[k]).len()
                                ==> r@.to_set().contains(
                                #[trigger] wrapper_codes(remap_output(mappings@[k]))[jj],
                            ),
                        forall|jj: int|
                            0 <= jj < dual_hold(mappings@[i as int]).len()
                                ==> r@.to_set().contains(
                                dual_hold(mappings@[i as int])[jj],
                            ),
                        forall|jj: int|
                            0 <= jj < j ==> r@.to_set().contains(
                                dual_tap(mappings@[i as int])[jj],
                            ),
                        tap@ == dual_tap(mappings@[i as int]),
                    decreases tap@.len() - j,
                {
                    crate::resolver::vec_insert_code(&mut r, &tap[j]);
                    proof {
                        assert(spec_output_codes(mappings@).contains(tap@[j as int])) by {
                            assert(dual_tap(mappings@[i as int]).contains(tap@[j as int]));
                        }
                    }
                    j = j + 1;
                }
            },
            Mapping::Remap { output, .. } => {
                let mut j: usize = 0;
                while j < output.len()
                    invariant
                        0 <= j <= output@.len(),
                        0 <= i < mappings@.len(),
                        r@.no_duplicates(),
                        forall|c: EventCode|
                            r@.to_set().contains(c) ==> spec_output_codes(
                                mappings@,
                            ).contains(c),
                        forall|k: int, jj: int|
                            0 <= k < i && 0 <= jj < dual_hold(mappings@[k]).len()
                                ==> r@.to_set().contains(#[trigger] dual_hold(mappings@[k])[jj]),
                        forall|k: int, jj: int|
                            0 <= k < i && 0 <= jj < dual_tap(mappings@[k]).len()
                                ==> r@.to_set().contains(#[trigger] dual_tap(mappings@[k])[jj]),
                        forall|k: int, jj: int|
                            0 <= k < i && 0 <= jj < remap_output(mappings@[k]).len()
                                ==> r@.to_set().contains(
                                #[trigger] wrapper_codes(remap_output(mappings@[k]))[jj],
                            ),
                        forall|jj: int|
                            0 <= jj < j ==> r@.to_set().contains(
                                wrapper_codes(remap_output(mappings@[i as int]))[jj],
                            ),
                        output@ == remap_output(mappings@[i as int]),
                    decreases output@.len() - j,
                {
                    crate::resolver::vec_insert_code(&mut r, &output[j].code);
                    proof {
                        assert(spec_output_codes(mappings@).contains(output@[j as int].code))
                            by {
                            assert(wrapper_codes(remap_output(mappings@[i as int])).contains(
                                output@[j as int].code,
                            )) by {
                                assert(wrapper_codes(remap_output(mappings@[i as int]))[j as int]
                                    == output@[j as int].code);
                            }
                        }
                    }
                    j = j + 1;
                }
            },
        }
        i = i + 1;
    }
    proof {
        assert forall|c: EventCode| spec_output_codes(mappings@).contains(
            c,
        ) implies r@.to_set().contains(c) by {
            let k = choose|k: int|
                0 <= k < mappings@.len() && (dual_hold(#[trigger] mappings@[k]).contains(c)
                    || dual_tap(mappings@[k]).contains(c) || wrapper_codes(
                    remap_output(mappings@[k]),
                ).contains(c));
            if dual_hold(mappings@[k]).contains(c) {
                let j = choose|j: int|
                    0 <= j < dual_hold(mappings@[k]).len() && dual_hold(mappings@[k])[j] == c;
            } else if dual_tap(mappings@[k]).contains(c) {
                let j = choose|j: int|
                    0 <= j < dual_tap(mappings@[k]).len() && dual_tap(mappings@[k])[j] == c;
            } else {
                let j = choose|j: int|
                    0 <= j < wrapper_codes(remap_output(mappings@[k])).len() && wrapper_codes(
                        remap_output(mappings@[k]),
                    )[j] == c;
            }
        }
    }
    r
}

/// The set of codes on the input side of a remap rule.
pub open spec fn codes_of_remap(m: Mapping) -> Set<EventCode> {
    crate::resolver::codes_of(remap_input(m))
}

/// Whether some rule is a dual-role rule for `code`.
pub open spec fn any_dual_match(maps: Seq<Mapping>, code: EventCode) -> bool {
    exists|i: int| 0 <= i < maps.len() && spec_dual_matches(#[trigger] maps[i], code)
}

/// Whether some remap rule claims an event with this code and value.
pub open spec fn any_remap_match(
    maps: Seq<Mapping>,
    code: EventCode,
    value: i32,
    held: Set<EventCode>,
) -> bool {
    exists|i: int|
        0 <= i < maps.len() && spec_remap_matches(#[trigger] maps[i], code, value, held)
}

/// Whether `d` is the index of the first dual-role rule for `code`.
pub open spec fn first_dual_at(maps: Seq<Mapping>, code: EventCode, d: int) -> bool {
    &&& 0 <= d < maps.len()
    &&& spec_dual_matches(maps[d], code)
    &&& forall|j: int| 0 <= j < d ==> !spec_dual_matches(#[trigger] maps[j], code)
}

/// Whether a release at `newer` of a key pressed at `older` falls inside
/// the tap window of 200 milliseconds.
pub open spec fn spec_within_tap_window(newer: TimeVal, older: TimeVal) -> bool {
    0 <= newer.spec_micros() - older.spec_micros() <= 200_000
}

/// The index of the first key reference of `input` that claims an event
/// with this code and value, if any.
fn find_wrapper_match(input: &Vec<KeyCodeWrapper>, code: &EventCode, value: i32) -> (r: Option<
    usize,
>)
    ensures
        match r {
            Some(j) => j < input@.len() && spec_wrapper_matches(input@[j as int], *code, value)
                && forall|k: int|
                0 <= k < j ==> !spec_wrapper_matches(#[trigger] input@[k], *code, value),
            None => forall|k: int|
                0 <= k < input@.len() ==> !spec_wrapper_matches(#[trigger] input@[k], *code, value),
        },
{
    let mut j: usize = 0;
    while j < input.len()
        invariant
            0 <= j <= input@.len(),
            forall|k: int|
                0 <= k < j ==> !spec_wrapper_matches(#[trigger] input@[k], *code, value),
        decreases input@.len() - j,
    {
        let w = &input[j];
        if w.code == *code && (code.family == EventType::Key || w.scale == 0 || ((w.scale < 0)
            == (value < 0))) {
            proof {
                assert(spec_wrapper_matches(input@[j as int], *code, value));
            }
            return Some(j);
        }
        j = j + 1;
    }
    None
}

/// What a key event with value 0 does when its key is not tracked as
/// held: the event passes through, followed by one synchronization
/// marker, and nothing else changes.
pub open spec fn spec_update_release_untracked(
    pre: InputMapper,
    post: InputMapper,
    ev: InputEvent,
    r: Seq<InputEvent>,
) -> bool {
    (ev.event_code.family == EventType::Key && ev.value == 0 && !pre.held().contains(
        ev.event_code,
    )) ==> {
        &&& r =~= seq![ev, spec_syn_event(ev.time)]
        &&& post.input_state == pre.input_state
        &&& post.tapping == pre.tapping
        &&& post.output_set() =~= apply_event(pre.output_set(), ev)
    }
}

/// What a key event with value 0 does when its key is tracked: the key
/// leaves the held set, the output is reconciled against the new desired
/// set, and — when a dual-role rule exists for the key, the key was the
/// pending tap candidate, and it was released within the tap window — a
/// press batch and a release batch of the rule's tap keys follow.
pub open spec fn release_tracked_body(
    pre: InputMapper,
    post: InputMapper,
    ev: InputEvent,
    r: Seq<InputEvent>,
    t: TimeVal,
    rec: Seq<InputEvent>,
) -> bool {
    let code = ev.event_code;
    let dmid = spec_desired_keys(pre.held().remove(code), pre.mappings@, pre.modifiers@);
    &&& pre.input_state@.to_set().contains(HeldKey { code, pressed_at: t })
    &&& post.input_state@.to_set() =~= pre.input_state@.to_set().remove(
        HeldKey { code, pressed_at: t },
    )
    &&& is_reconcile_output(
        rec,
        pre.output_set().difference(dmid),
        dmid.difference(pre.output_set()),
        pre.modifiers@,
        ev.time,
    )
    &&& if any_dual_match(pre.mappings@, code) && pre.tapping == Some(code)
        && spec_within_tap_window(ev.time, t) {
        exists|d: int|
            #![trigger first_dual_at(pre.mappings@, code, d)]
            {
                &&& first_dual_at(pre.mappings@, code, d)
                &&& r =~= rec + key_events(dual_tap(pre.mappings@[d]), ev.time, 1).push(
                    spec_syn_event(ev.time),
                ) + key_events(dual_tap(pre.mappings@[d]), ev.time, 0).push(
                    spec_syn_event(ev.time),
                )
                &&& post.output_set() =~= key_part(dmid).difference(
                    keyset(dual_tap(pre.mappings@[d])),
                )
            }
    } else {
        r =~= rec && post.output_set() =~= key_part(dmid)
    }
}

/// The full outcome of a tracked key release; see `release_tracked_body`.
pub open spec fn spec_update_release_tracked(
    pre: InputMapper,
    post: InputMapper,
    ev: InputEvent,
    r: Seq<InputEvent>,
) -> bool {
    (ev.event_code.family == EventType::Key && ev.value == 0 && pre.held().contains(
        ev.event_code,
    )) ==> {
        &&& post.held() =~= pre.held().remove(ev.event_code)
        &&& post.tapping == (if any_dual_match(pre.mappings@, ev.event_code) {
            Option::<EventCode>::None
        } else if pre.tapping == Some(ev.event_code) {
            Option::<EventCode>::None
        } else {
            pre.tapping
        })
        &&& exists|t: TimeVal, rec: Seq<InputEvent>|
            #![trigger release_tracked_body(pre, post, ev, r, t, rec)]
            release_tracked_body(pre, post, ev, r, t, rec)
    }
}

/// What a key event with value 1 does: the key enters the held set with
/// the event's time, the output is reconciled against the new desired
/// set, and the key becomes the pending tap candidate exactly when some
/// rule claims it.
pub open spec fn spec_update_press(
    pre: InputMapper,
    post: InputMapper,
    ev: InputEvent,
    r: Seq<InputEvent>,
) -> bool {
    (ev.event_code.family == EventType::Key && ev.value == 1) ==> {
        let code = ev.event_code;
        let held1 = pre.held().insert(code);
        let d1 = spec_desired_keys(held1, pre.mappings@, pre.modifiers@);
        &&& post.held() =~= held1
        &&& post.input_state@.to_set() =~= Set::new(
            |h: HeldKey| pre.input_state@.to_set().contains(h) && h.code != code,
        ).insert(HeldKey { code, pressed_at: ev.time })
        &&& post.tapping == (if any_dual_match(pre.mappings@, code) || any_remap_match(
            pre.mappings@,
            code,
            1,
            held1,
        ) {
            Some(code)
        } else {
            Option::<EventCode>::None
        })
        &&& is_reconcile_output(
            r,
            pre.output_set().difference(d1),
            d1.difference(pre.output_set()),
            pre.modifiers@,
            ev.time,
        )
        &&& post.output_set() =~= key_part(d1)
    }
}

/// What a key event with value 2 does: a repeat of the substituted keys
/// when a rule claims the key — the hold keys of the first dual-role
/// rule, or the output codes of the most specific matching remap rule —
/// and a plain pass-through, cancelling any pending tap, otherwise.
pub open spec fn spec_update_repeat(
    pre: InputMapper,
    post: InputMapper,
    ev: InputEvent,
    r: Seq<InputEvent>,
) -> bool {
    (ev.event_code.family == EventType::Key && ev.value == 2) ==> {
        let code = ev.event_code;
        &&& post.input_state == pre.input_state
        &&& if any_dual_match(pre.mappings@, code) {
            exists|d: int|
                #![trigger first_dual_at(pre.mappings@, code, d)]
                {
                    &&& first_dual_at(pre.mappings@, code, d)
                    &&& r =~= key_events(dual_hold(pre.mappings@[d]), ev.time, 2).push(
                        spec_syn_event(ev.time),
                    )
                    &&& post.output_set() =~= pre.output_set().union(
                        keyset(dual_hold(pre.mappings@[d])),
                    )
                    &&& post.tapping == pre.tapping
                }
        } else if any_remap_match(pre.mappings@, code, 2, pre.held()) {
            exists|b: int|
                #![trigger is_lookup_result(pre, code, 2, b)]
                {
                    &&& is_lookup_result(pre, code, 2, b)
                    &&& r =~= key_events(
                        wrapper_codes(remap_output(pre.mappings@[b])),
                        ev.time,
                        2,
                    ).push(spec_syn_event(ev.time))
                    &&& post.output_set() =~= pre.output_set().union(
                        keyset(wrapper_codes(remap_output(pre.mappings@[b]))),
                    )
                    &&& post.tapping == pre.tapping
                }
        } else {
            &&& r =~= seq![ev, spec_syn_event(ev.time)]
            &&& post.tapping is None
            &&& post.output_set() =~= apply_event(pre.output_set(), ev)
        }
    }
}

/// What a key event with any other value does: it passes through with a
/// synchronization marker and nothing changes.
pub open spec fn spec_update_other_value(
    pre: InputMapper,
    post: InputMapper,
    ev: InputEvent,
    r: Seq<InputEvent>,
) -> bool {
    (ev.event_code.family == EventType::Key && !(ev.value == 0 || ev.value == 1 || ev.value
        == 2)) ==> {
        &&& r =~= seq![ev, spec_syn_event(ev.time)]
        &&& post.input_state == pre.input_state
        &&& post.tapping == pre.tapping
        &&& post.output_set() =~= pre.output_set()
    }
}

/// What an event outside the key family does: when no dual-role rule
/// claims its code and some remap rule does, the most specific such rule
/// fires through its first matching input reference and its outputs are
/// written; otherwise the event passes through with a synchronization
/// marker and any pending tap is cancelled.
pub open spec fn spec_update_axis(
    pre: InputMapper,
    post: InputMapper,
    ev: InputEvent,
    r: Seq<InputEvent>,
) -> bool {
    (ev.event_code.family != EventType::Key) ==> {
        let code = ev.event_code;
        &&& post.input_state == pre.input_state
        &&& if !any_dual_match(pre.mappings@, code) && any_remap_match(
            pre.mappings@,
            code,
            ev.value,
            pre.held(),
        ) {
            exists|b: int, j: int|
                #![trigger is_lookup_result(pre, code, ev.value, b), spec_wrapper_matches(remap_input(pre.mappings@[b])[j], code, ev.value)]
                {
                    &&& is_lookup_result(pre, code, ev.value, b)
                    &&& 0 <= j < remap_input(pre.mappings@[b]).len()
                    &&& spec_wrapper_matches(remap_input(pre.mappings@[b])[j], code, ev.value)
                    &&& forall|k: int|
                        0 <= k < j ==> !spec_wrapper_matches(
                            #[trigger] remap_input(pre.mappings@[b])[k],
                            code,
                            ev.value,
                        )
                    &&& r =~= axis_events(
                        remap_output(pre.mappings@[b]),
                        remap_input(pre.mappings@[b])[j].scale,
                        ev,
                    ).push(spec_syn_event(ev.time))
                    &&& post.output_set() =~= pre.output_set().difference(
                        keyset(wrapper_codes(remap_output(pre.mappings@[b]))),
                    )
                    &&& post.tapping == pre.tapping
                }
        } else {
            &&& r =~= seq![ev, spec_syn_event(ev.time)]
            &&& post.tapping is None
            &&& post.output_set() =~= apply_event(pre.output_set(), ev)
        }
    }
}

impl InputMapper {
    /// Writes the outputs of a matched axis rule: a press and a release
    /// for each key-family output — an axis tick synthesizes a discrete
    /// tap — and one scaled event for each axis output, then one
    /// synchronization marker.
    fn emit_axis_outputs(
        &mut self,
        outs: &Vec<KeyCodeWrapper>,
        in_scale: i32,
        event: &InputEvent,
        out: &mut Vec<InputEvent>,
    )
        requires
            old(self).wf(),
        ensures
            final(self).wf(),
            final(self).same_table(*old(self)),
            final(self).input_state == old(self).input_state,
            final(self).tapping == old(self).tapping,
            final(out)@ == old(out)@ + axis_events(outs@, in_scale, *event).push(
                spec_syn_event(event.time),
            ),
            final(self).output_set() =~= old(self).output_set().difference(
                keyset(wrapper_codes(outs@)),
            ),
    {
        let ghost base = out@;
        let ghost start = old(self).output_set();
        let mut i: usize = 0;
        while i < outs.len()
            invariant
                0 <= i <= outs@.len(),
                self.wf(),
                self.same_table(*old(self)),
                self.input_state == old(self).input_state,
                self.tapping == old(self).tapping,
                out@ == base + axis_events(outs@.subrange(0, i as int), in_scale, *event),
                self.output_set() =~= start.difference(
                    keyset(wrapper_codes(outs@.subrange(0, i as int))),
                ),
            decreases outs@.len() - i,
        {
            let ghost pre_set = self.output_set();
            let k = outs[i];
            if k.code.family == EventType::Key {
                let press = InputEvent { time: event.time, event_code: k.code, value: 1 };
                let release = InputEvent { time: event.time, event_code: k.code, value: 0 };
                self.write_event(&press, out);
                self.write_event(&release, out);
            } else {
                let val = scale_axis_value(event.value, in_scale, k.scale);
                let e = InputEvent { time: event.time, event_code: k.code, value: val };
                self.write_event(&e, out);
            }
            proof {
                let prev = outs@.subrange(0, i as int);
                let cur = outs@.subrange(0, i + 1);
                assert(cur.drop_last() =~= prev);
                assert(cur.last() == outs@[i as int]);
                assert(out@ == base + axis_events(cur, in_scale, *event));
                let pcodes = wrapper_codes(prev);
                let ccodes = wrapper_codes(cur);
                assert(ccodes =~= pcodes.push(outs@[i as int].code));
                lemma_keyset_push(pcodes, outs@[i as int].code);
                assert(self.output_set() =~= start.difference(keyset(ccodes)));
            }
            i = i + 1;
        }
        proof {
            assert(outs@.subrange(0, outs@.len() as int) =~= outs@);
        }
        self.generate_sync_event(&event.time, out);
        proof {
            assert(out@ =~= base + axis_events(outs@, in_scale, *event).push(
                spec_syn_event(event.time),
            ));
        }
    }

    /// Dispatches one event of a mapped family. Key events drive the
    /// held-key tracker, the reconciler and the dual-role tap detector by
    /// their raw value; events of other families take the axis path. The
    /// returned events are what the engine writes to the synthetic
    /// output, in order.
    pub fn update_with_event(&mut self, event: &InputEvent, code: KeyCode) -> (r: Vec<InputEvent>)
        requires
            old(self).wf(),
            code == event.event_code,
            event.time.wf(),
        ensures
            final(self).wf(),
            final(self).same_table(*old(self)),
            spec_update_release_untracked(*old(self), *final(self), *event, r@),
            spec_update_release_tracked(*old(self), *final(self), *event, r@),
            spec_update_press(*old(self), *final(self), *event, r@),
            spec_update_repeat(*old(self), *final(self), *event, r@),
            spec_update_other_value(*old(self), *final(self), *event, r@),
            spec_update_axis(*old(self), *final(self), *event, r@),
    {
        let mut out: Vec<InputEvent> = Vec::new();
        if event.event_code.family == EventType::Key {
            let et = KeyEventType::from_value(event.value);
            match et {
                KeyEventType::Release => {
                    if !self.contains_held(&code) {
                        self.write_event_and_sync(event, &mut out);
                        return out;
                    }
                    let dual = self.lookup_dual_role_mapping(&code);
                    let was_tapping_code = match &self.tapping {
                        Some(k) => *k == code,
                        None => false,
                    };
                    if dual.is_some() || was_tapping_code {
                        self.tapping = None;
                    }
                    let pressed_at = match self.on_release(&code) {
                        Some(t) => t,
                        None => {
                            proof {
                                assert(false);
                            }
                            return out;
                        },
                    };
                    let ghost rec_mid = *self;
                    self.compute_and_apply_keys(&event.time, &mut out);
                    let ghost rec = out@;
                    match dual {
                        Some(d) => {
                            let diff_ok = {
                                let dm = event.time.micros() - pressed_at.micros();
                                0 <= dm && dm <= 200_000
                            };
                            if was_tapping_code && diff_ok {
                                let tap = match &self.mappings[d] {
                                    Mapping::DualRole { tap, .. } => clone_codes(tap),
                                    Mapping::Remap { .. } => {
                                        proof {
                                            assert(false);
                                        }
                                        Vec::new()
                                    },
                                };
                                self.emit_keys(&tap, &event.time, KeyEventType::Press, &mut out);
                                self.emit_keys(&tap, &event.time, KeyEventType::Release, &mut out);
                            }
                        },
                        None => {},
                    }
                    proof {
                        let pre = *old(self);
                        let dmid = spec_desired_keys(
                            pre.held().remove(code),
                            pre.mappings@,
                            pre.modifiers@,
                        );
                        assert(rec_mid.held() =~= pre.held().remove(code));
                        assert(rec_mid.desired() == dmid);
                        assert(rec_mid.output_set() == pre.output_set());
                        assert(rec.skip(0) =~= rec);
                        assert(is_reconcile_output(
                            rec,
                            pre.output_set().difference(dmid),
                            dmid.difference(pre.output_set()),
                            pre.modifiers@,
                            event.time,
                        ));
                        assert(was_tapping_code == (pre.tapping == Some(code)));
                        match dual {
                            Some(d) => {
                                assert(spec_dual_matches(pre.mappings@[d as int], code));
                                assert(any_dual_match(pre.mappings@, code));
                                assert(first_dual_at(pre.mappings@, code, d as int));
                                if was_tapping_code && spec_within_tap_window(
                                    event.time,
                                    pressed_at,
                                ) {
                                    assert(self.output_set() =~= key_part(dmid).difference(
                                        keyset(dual_tap(pre.mappings@[d as int])),
                                    ));
                                }
                            },
                            None => {
                                assert(!any_dual_match(pre.mappings@, code));
                            },
                        }
                        assert(release_tracked_body(
                            pre,
                            *self,
                            *event,
                            out@,
                            pressed_at,
                            rec,
                        ));
                        assert(spec_update_release_tracked(pre, *self, *event, out@));
                    }
                },
                KeyEventType::Press => {
                    let ghost pre = *old(self);
                    let ghost held1 = pre.held().insert(code);
                    let ghost d1 = spec_desired_keys(held1, pre.mappings@, pre.modifiers@);
                    self.on_press(code, event.time);
                    proof {
                        assert(self.held() =~= held1);
                        assert(self.desired() == d1);
                        assert(self.output_set() == pre.output_set());
                    }
                    match self.lookup_mapping(&code, 1) {
                        Some(i) => {
                            proof {
                                assert(any_dual_match(pre.mappings@, code) || any_remap_match(
                                    pre.mappings@,
                                    code,
                                    1,
                                    held1,
                                )) by {
                                    if !any_dual_match(pre.mappings@, code) {
                                        assert(spec_remap_matches(
                                            pre.mappings@[i as int],
                                            code,
                                            1,
                                            held1,
                                        ));
                                    }
                                }
                            }
                            self.compute_and_apply_keys(&event.time, &mut out);
                            self.tapping = Some(code);
                        },
                        None => {
                            self.tapping = None;
                            self.compute_and_apply_keys(&event.time, &mut out);
                            proof {
                                assert(!any_dual_match(pre.mappings@, code));
                                assert(!any_remap_match(pre.mappings@, code, 1, held1)) by {
                                    if any_remap_match(pre.mappings@, code, 1, held1) {
                                        let k = choose|k: int|
                                            0 <= k < pre.mappings@.len() && spec_remap_matches(
                                                #[trigger] pre.mappings@[k],
                                                code,
                                                1,
                                                held1,
                                            );
                                        assert(spec_remap_matches(
                                            pre.mappings@[k],
                                            code,
                                            1,
                                            old(self).held().insert(code),
                                        ));
                                    }
                                }
                            }
                        },
                    }
                    proof {
                        assert(out@.skip(0) =~= out@);
                        assert(spec_update_press(pre, *self, *event, out@));
                    }
                },
                KeyEventType::Repeat => {
                    let ghost pre = *old(self);
                    match self.lookup_mapping(&code, 2) {
                        Some(i) => {
                            let ghost is_dual = pre.mappings@[i as int] matches Mapping::DualRole {
                                ..
                            };
                            let keys = match &self.mappings[i] {
                                Mapping::DualRole { hold, .. } => clone_codes(hold),
                                Mapping::Remap { output, .. } => collect_wrapper_codes(output),
                            };
                            self.emit_keys(&keys, &event.time, KeyEventType::Repeat, &mut out);
                            proof {
                                if is_dual {
                                    assert(any_dual_match(pre.mappings@, code)) by {
                                        if !any_dual_match(pre.mappings@, code) {
                                            assert(spec_remap_matches(
                                                pre.mappings@[i as int],
                                                code,
                                                2,
                                                pre.held(),
                                            ));
                                        }
                                    }
                                    assert(first_dual_at(pre.mappings@, code, i as int));
                                    assert(keys@ == dual_hold(pre.mappings@[i as int]));
                                } else {
                                    assert(!any_dual_match(pre.mappings@, code)) by {
                                        if any_dual_match(pre.mappings@, code) {
                                            assert(spec_dual_matches(
                                                pre.mappings@[i as int],
                                                code,
                                            ));
                                        }
                                    }
                                    assert(spec_remap_matches(
                                        pre.mappings@[i as int],
                                        code,
                                        2,
                                        pre.held(),
                                    ));
                                    assert(keys@ == wrapper_codes(
                                        remap_output(pre.mappings@[i as int]),
                                    ));
                                    assert(is_lookup_result(pre, code, 2, i as int));
                                }
                                assert(spec_update_repeat(pre, *self, *event, out@));
                            }
                        },
                        None => {
                            self.cancel_pending_tap();
                            self.write_event_and_sync(event, &mut out);
                            proof {
                                assert(spec_update_repeat(pre, *self, *event, out@));
                            }
                        },
                    }
                },
                KeyEventType::Unknown(_) => {
                    self.write_event_and_sync(event, &mut out);
                },
            }
        } else {
            let ghost pre = *old(self);
            let looked = self.lookup_mapping(&code, event.value);
            let mut handled = false;
            match looked {
                Some(i) => {
                    let is_remap = match &self.mappings[i] {
                        Mapping::Remap { .. } => true,
                        Mapping::DualRole { .. } => false,
                    };
                    if is_remap {
                        proof {
                            assert(!any_dual_match(pre.mappings@, code)) by {
                                if any_dual_match(pre.mappings@, code) {
                                    assert(spec_dual_matches(pre.mappings@[i as int], code));
                                }
                            }
                            assert(spec_remap_matches(
                                pre.mappings@[i as int],
                                code,
                                event.value,
                                pre.held(),
                            ));
                            assert(is_lookup_result(pre, code, event.value, i as int));
                        }
                        let (input_c, output_c) = match &self.mappings[i] {
                            Mapping::Remap { input, output } => (
                                clone_wrappers(input),
                                clone_wrappers(output),
                            ),
                            Mapping::DualRole { .. } => {
                                proof {
                                    assert(false);
                                }
                                (Vec::new(), Vec::new())
                            },
                        };
                        let fj = find_wrapper_match(&input_c, &code, event.value);
                        match fj {
                            Some(j) => {
                                self.emit_axis_outputs(
                                    &output_c,
                                    input_c[j].scale,
                                    event,
                                    &mut out,
                                );
                                handled = true;
                                proof {
                                    assert(input_c@ == remap_input(pre.mappings@[i as int]));
                                    assert(output_c@ == remap_output(pre.mappings@[i as int]));
                                    assert(spec_update_axis(pre, *self, *event, out@));
                                }
                            },
                            None => {
                                proof {
                                    let k = choose|k: int|
                                        0 <= k < input_c@.len() && spec_wrapper_matches(
                                            #[trigger] input_c@[k],
                                            code,
                                            event.value,
                                        );
                                    assert(false);
                                }
                            },
                        }
                    } else {
                        proof {
                            assert(spec_dual_matches(pre.mappings@[i as int], code)) by {
                                if !any_dual_match(pre.mappings@, code) {
                                    assert(spec_remap_matches(
                                        pre.mappings@[i as int],
                                        code,
                                        event.value,
                                        pre.held(),
                                    ));
                                }
                            }
                            assert(any_dual_match(pre.mappings@, code));
                        }
                    }
                },
                None => {},
            }
            if !handled {
                self.cancel_pending_tap();
                self.write_event_and_sync(event, &mut out);
                proof {
                    assert(spec_update_axis(pre, *self, *event, out@));
                }
            }
        }
        out
    }

    /// Handles one event read from the physical device. An event whose
    /// family no rule claims passes through verbatim, with no added
    /// synchronization marker and no state change — the upstream device
    /// emits its own markers, which pass through the same way. An event
    /// of a mapped family is dispatched to the engine.
    pub fn handle_event(&mut self, event: &InputEvent) -> (r: Vec<InputEvent>)
        requires
            old(self).wf(),
            event.time.wf(),
        ensures
            final(self).wf(),
            final(self).same_table(*old(self)),
            !old(self).mapped_types@.contains(event.event_code.family) ==> (r@ =~= seq![*event]
                && *final(self) == *old(self)),
            old(self).mapped_types@.contains(event.event_code.family) ==> {
                &&& spec_update_release_untracked(*old(self), *final(self), *event, r@)
                &&& spec_update_release_tracked(*old(self), *final(self), *event, r@)
                &&& spec_update_press(*old(self), *final(self), *event, r@)
                &&& spec_update_repeat(*old(self), *final(self), *event, r@)
                &&& spec_update_other_value(*old(self), *final(self), *event, r@)
                &&& spec_update_axis(*old(self), *final(self), *event, r@)
            },
    {
        let family = crate::mapping::to_event_type(&event.event_code);
        if self.is_mapped_type(&family) {
            self.update_with_event(event, event.event_code)
        } else {
            let mut v: Vec<InputEvent> = Vec::new();
            v.push(*event);
            proof {
                assert(v@ =~= seq![*event]);
            }
            v
        }
    }

    /// Forgets the pending dual-role tap candidate.
    pub fn cancel_pending_tap(&mut self)
        requires
            old(self).wf(),
        ensures
            final(self).wf(),
            final(self).same_table(*old(self)),
            final(self).input_state == old(self).input_state,
            final(self).output_keys == old(self).output_keys,
            final(self).tapping is None,
    {
        self.tapping = None;
    }
}

/// The set of codes of `s` that belong to the key family.
pub open spec fn key_part(s: Set<EventCode>) -> Set<EventCode> {
    Set::new(|c: EventCode| s.contains(c) && c.family == EventType::Key)
}

/// The event families that the input side of some rule claims: the
/// family of every dual-role input and of every remap input reference.
pub open spec fn spec_mapped_types(maps: Seq<Mapping>) -> Set<EventType> {
    Set::new(
        |t: EventType|
            exists|i: int|
                0 <= i < maps.len() && match #[trigger] maps[i] {
                    Mapping::DualRole { input, .. } => input.family == t,
                    Mapping::Remap { input, .. } => exists|j: int|
                        0 <= j < input@.len() && (#[trigger] input@[j]).code.family == t,
                },
    )
}

/// Collects the event families named on the input side of the rules.
pub fn compute_mapped_types(mappings: &Vec<Mapping>) -> (r: Vec<EventType>)
    ensures
        r@.to_set() =~= spec_mapped_types(mappings@),
{
    let mut r: Vec<EventType> = Vec::new();
    let mut i: usize = 0;
    while i < mappings.len()
        invariant
            0 <= i <= mappings@.len(),
            r@.to_set() =~= spec_mapped_types(mappings@.subrange(0, i as int)),
        decreases mappings@.len() - i,
    {
        let ghost prev = r@.to_set();
        match &mappings[i] {
            Mapping::DualRole { input, .. } => {
                vec_insert_type(&mut r, &input.family);
            },
            Mapping::Remap { input, .. } => {
                let mut j: usize = 0;
                while j < input.len()
                    invariant
                        0 <= j <= input@.len(),
                        r@.to_set() =~= prev.union(
                            Set::new(
                                |t: EventType|
                                    exists|k: int|
                                        0 <= k < j && (#[trigger] input@[k]).code.family == t,
                            ),
                        ),
                    decreases input@.len() - j,
                {
                    let ghost mid = r@.to_set();
                    vec_insert_type(&mut r, &input[j].code.family);
                    proof {
                        assert(r@.to_set() =~= prev.union(
                            Set::new(
                                |t: EventType|
                                    exists|k: int|
                                        0 <= k < j + 1 && (#[trigger] input@[k]).code.family
                                            == t,
                            ),
                        ));
                    }
                    j = j + 1;
                }
            },
        }
        proof {
            lemma_mapped_types_snoc(mappings@, i as int);
        }
        i = i + 1;
    }
    proof {
        assert(mappings@.subrange(0, mappings@.len() as int) =~= mappings@);
    }
    r
}

/// Inserts the family `t` into a sequence of families, if absent.
fn vec_insert_type(v: &mut Vec<EventType>, t: &EventType)
    ensures
        final(v)@.to_set() =~= old(v)@.to_set().insert(*t),
{
    if !vec_type_contains(v, t) {
        let ghost orig = v@;
        v.push(*t);
        proof {
            assert(v@.to_set() =~= orig.to_set().insert(*t)) by {
                assert(forall|x: EventType| v@.contains(x) <==> (orig.contains(x) || x == *t))
                    by {
                    assert(forall|j: int| 0 <= j < orig.len() ==> v@[j] == orig[j]);
                    assert(v@[orig.len() as int] == *t);
                }
            }
        }
    } else {
        proof {
            assert(v@.to_set() =~= old(v)@.to_set().insert(*t));
        }
    }
}

/// Whether the sequence of families `v` contains `t`.
fn vec_type_contains(v: &Vec<EventType>, t: &EventType) -> (r: bool)
    ensures
        r == v@.contains(*t),
{
    let mut i: usize = 0;
    while i < v.len()
        invariant
            0 <= i <= v@.len(),
            forall|j: int| 0 <= j < i ==> v@[j] != *t,
        decreases v@.len() - i,
    {
        if v[i] == *t {
            return true;
        }
        i = i + 1;
    }
    false
}

proof fn lemma_mapped_types_snoc(maps: Seq<Mapping>, i: int)
    requires
        0 <= i < maps.len(),
    ensures
        spec_mapped_types(maps.subrange(0, i + 1)) =~= spec_mapped_types(
            maps.subrange(0, i),
        ).union(
            match maps[i] {
                Mapping::DualRole { input, .. } => Set::empty().insert(input.family),
                Mapping::Remap { input, .. } => Set::new(
                    |t: EventType|
                        exists|j: int|
                            0 <= j < input@.len() && (#[trigger] input@[j]).code.family == t,
                ),
            },
    ),
{
    let a = maps.subrange(0, i + 1);
    let b = maps.subrange(0, i);
    assert forall|t: EventType| spec_mapped_types(a).contains(t) implies spec_mapped_types(
        b,
    ).union(
        match maps[i] {
            Mapping::DualRole { input, .. } => Set::empty().insert(input.family),
            Mapping::Remap { input, .. } => Set::new(
                |t: EventType|
                    exists|j: int|
                        0 <= j < input@.len() && (#[trigger] input@[j]).code.family == t,
            ),
        },
    ).contains(t) by {
        let k = choose|k: int|
            0 <= k < a.len() && match #[trigger] a[k] {
                Mapping::DualRole { input, .. } => input.family == t,
                Mapping::Remap { input, .. } => exists|j: int|
                    0 <= j < input@.len() && (#[trigger] input@[j]).code.family == t,
            };
        if k < i {
            assert(b[k] == a[k]);
        } else {
            assert(a[k] == maps[i]);
        }
    }
    assert forall|t: EventType|
        spec_mapped_types(b).union(
            match maps[i] {
                Mapping::DualRole { input, .. } => Set::empty().insert(input.family),
                Mapping::Remap { input, .. } => Set::new(
                    |t: EventType|
                        exists|j: int|
                            0 <= j < input@.len() && (#[trigger] input@[j]).code.family == t,
                ),
            },
        ).contains(t) implies spec_mapped_types(a).contains(t) by {
        if spec_mapped_types(b).contains(t) {
            let k = choose|k: int|
                0 <= k < b.len() && match #[trigger] b[k] {
                    Mapping::DualRole { input, .. } => input.family == t,
                    Mapping::Remap { input, .. } => exists|j: int|
                        0 <= j < input@.len() && (#[trigger] input@[j]).code.family == t,
                };
            assert(a[k] == b[k]);
        } else {
            assert(a[i] == maps[i]);
        }
    }
}

/// A valid ordering for a release batch over the codes `rel`: each code
/// once, non-modifiers before modifiers.
pub open spec fn is_release_order(s: Seq<EventCode>, rel: Set<EventCode>, mods: Seq<EventCode>) -> bool {
    s.no_duplicates() && s.to_set() == rel && nonmods_before_mods(s, mods)
}

/// A valid ordering for a press batch over the codes `prs`: each code
/// once, modifiers before non-modifiers.
pub open spec fn is_press_order(s: Seq<EventCode>, prs: Set<EventCode>, mods: Seq<EventCode>) -> bool {
    s.no_duplicates() && s.to_set() == prs && mods_before_nonmods(s, mods)
}

/// What one reconciliation appends to the output: a release batch for
/// exactly the codes of `rel` in some release order, then a press batch
/// for exactly the codes of `prs` in some press order, each non-empty
/// batch closed by one synchronization marker and an empty one omitted.
pub open spec fn is_reconcile_output(
    appended: Seq<InputEvent>,
    rel: Set<EventCode>,
    prs: Set<EventCode>,
    mods: Seq<EventCode>,
    time: TimeVal,
) -> bool {
    exists|rs: Seq<EventCode>, ps: Seq<EventCode>|
        is_release_order(rs, rel, mods) && is_press_order(ps, prs, mods) && appended
            == #[trigger] batch_events(rs, time, 0) + #[trigger] batch_events(ps, time, 1)
}

proof fn lemma_reconcile_output_set(
    out0: Set<EventCode>,
    desired: Set<EventCode>,
    relset: Set<EventCode>,
    prsset: Set<EventCode>,
    out1: Set<EventCode>,
    rel_empty: bool,
    prs_empty: bool,
)
    requires
        forall|c: EventCode| out0.contains(c) ==> c.family == EventType::Key,
        rel_empty ==> out0.difference(desired).is_empty(),
        prs_empty ==> desired.difference(out0).is_empty(),
        !rel_empty ==> relset =~= out0.difference(desired),
        !prs_empty ==> prsset =~= desired.difference(out0),
        out1 =~= (if prs_empty {
            if rel_empty {
                out0
            } else {
                out0.difference(key_part(relset))
            }
        } else {
            (if rel_empty {
                out0
            } else {
                out0.difference(key_part(relset))
            }).union(key_part(prsset))
        }),
    ensures
        out1 =~= key_part(desired),
{
    let base = if rel_empty {
        out0
    } else {
        out0.difference(key_part(relset))
    };
    assert forall|c: EventCode| out1.contains(c) implies key_part(desired).contains(c) by {
        if !prs_empty && key_part(prsset).contains(c) {
            assert(prsset.contains(c));
            assert(desired.difference(out0).contains(c));
        } else {
            assert(base.contains(c));
            assert(out0.contains(c));
            assert(c.family == EventType::Key);
            if rel_empty {
                assert(!out0.difference(desired).contains(c));
            } else {
                assert(!key_part(relset).contains(c));
                assert(!relset.contains(c));
                assert(!out0.difference(desired).contains(c));
            }
            assert(desired.contains(c));
        }
    }
    assert forall|c: EventCode| key_part(desired).contains(c) implies out1.contains(c) by {
        assert(desired.contains(c) && c.family == EventType::Key);
        if out0.contains(c) {
            if !rel_empty {
                assert(!out0.difference(desired).contains(c));
                assert(!relset.contains(c));
                assert(!key_part(relset).contains(c));
            }
            assert(base.contains(c));
        } else {
            assert(desired.difference(out0).contains(c));
            if prs_empty {
                assert(false);
            } else {
                assert(prsset.contains(c));
                assert(key_part(prsset).contains(c));
            }
        }
    }
}

/// The subsequence of modifier codes of `s`, in order.
pub open spec fn mods_of(s: Seq<EventCode>, mods: Seq<EventCode>) -> Seq<EventCode> {
    s.filter(|c: EventCode| mods.contains(c))
}

/// The subsequence of non-modifier codes of `s`, in order.
pub open spec fn nonmods_of(s: Seq<EventCode>, mods: Seq<EventCode>) -> Seq<EventCode> {
    s.filter(|c: EventCode| !mods.contains(c))
}

/// In a press batch every modifier comes before every non-modifier.
pub open spec fn mods_before_nonmods(s: Seq<EventCode>, mods: Seq<EventCode>) -> bool {
    forall|i: int, j: int|
        0 <= i < j < s.len() && mods.contains(#[trigger] s[j]) ==> mods.contains(#[trigger] s[i])
}

/// In a release batch every non-modifier comes before every modifier.
pub open spec fn nonmods_before_mods(s: Seq<EventCode>, mods: Seq<EventCode>) -> bool {
    forall|i: int, j: int|
        0 <= i < j < s.len() && mods.contains(#[trigger] s[i]) ==> mods.contains(#[trigger] s[j])
}

/// Stably partitions the codes of `v` by modifier class: modifiers first
/// when `mods_first` is set, non-modifiers first otherwise.
pub fn partition_by_modifiers(
    v: &Vec<EventCode>,
    mods: &Vec<EventCode>,
    mods_first: bool,
) -> (r: Vec<EventCode>)
    ensures
        mods_first ==> r@ == mods_of(v@, mods@) + nonmods_of(v@, mods@),
        !mods_first ==> r@ == nonmods_of(v@, mods@) + mods_of(v@, mods@),
{
    broadcast use vstd::seq_lib::group_filter_ensures;

    let mut first: Vec<EventCode> = Vec::new();
    let mut second: Vec<EventCode> = Vec::new();
    let mut i: usize = 0;
    while i < v.len()
        invariant
            0 <= i <= v@.len(),
            first@ == mods_of(v@.subrange(0, i as int), mods@),
            second@ == nonmods_of(v@.subrange(0, i as int), mods@),
        decreases v@.len() - i,
    {
        if is_modifier_in(mods, &v[i]) {
            first.push(v[i]);
        } else {
            second.push(v[i]);
        }
        proof {
            let prev = v@.subrange(0, i as int);
            let x = v@[i as int];
            assert(v@.subrange(0, i + 1) =~= prev.push(x));
            prev.lemma_filter_push(x, |c: EventCode| mods@.contains(c));
            prev.lemma_filter_push(x, |c: EventCode| !mods@.contains(c));
            assert(mods_of(v@.subrange(0, i + 1), mods@) == mods_of(prev.push(x), mods@));
            assert(nonmods_of(v@.subrange(0, i + 1), mods@) == nonmods_of(prev.push(x), mods@));
        }
        i = i + 1;
    }
    proof {
        assert(v@.subrange(0, v@.len() as int) =~= v@);
    }
    let (mut r, rest) = if mods_first {
        (first, second)
    } else {
        (second, first)
    };
    let ghost r0 = r@;
    let mut j: usize = 0;
    while j < rest.len()
        invariant
            0 <= j <= rest@.len(),
            r@ == r0 + rest@.subrange(0, j as int),
        decreases rest@.len() - j,
    {
        r.push(rest[j]);
        proof {
            assert(rest@.subrange(0, j + 1) =~= rest@.subrange(0, j as int).push(
                rest@[j as int],
            ));
            assert(r@ =~= r0 + rest@.subrange(0, j + 1));
        }
        j = j + 1;
    }
    proof {
        assert(rest@.subrange(0, rest@.len() as int) =~= rest@);
        assert(r@ =~= r0 + rest@);
    }
    r
}

/// A stable partition of a duplicate-free sequence by modifier class is
/// itself duplicate-free, holds exactly the same codes, and puts its two
/// classes in two contiguous runs.
pub proof fn lemma_partition_props(s: Seq<EventCode>, mods: Seq<EventCode>)
    requires
        s.no_duplicates(),
    ensures
        (mods_of(s, mods) + nonmods_of(s, mods)).no_duplicates(),
        (nonmods_of(s, mods) + mods_of(s, mods)).no_duplicates(),
        (mods_of(s, mods) + nonmods_of(s, mods)).to_set() =~= s.to_set(),
        (nonmods_of(s, mods) + mods_of(s, mods)).to_set() =~= s.to_set(),
        mods_before_nonmods(mods_of(s, mods) + nonmods_of(s, mods), mods),
        nonmods_before_mods(nonmods_of(s, mods) + mods_of(s, mods), mods),
{
    broadcast use vstd::seq_lib::group_filter_ensures;

    let m = mods_of(s, mods);
    let n = nonmods_of(s, mods);
    lemma_filter_no_duplicates(s, |c: EventCode| mods.contains(c));
    lemma_filter_no_duplicates(s, |c: EventCode| !mods.contains(c));
    assert forall|i: int, j: int|
        0 <= i < m.len() && 0 <= j < n.len() implies m[i] != n[j] by {
        assert(mods.contains(m[i]));
        assert(!mods.contains(n[j]));
    }
    assert forall|i: int, j: int|
        0 <= i < (m + n).len() && 0 <= j < (m + n).len() && i != j implies (m + n)[i] != (m
            + n)[j] by {}
    assert forall|i: int, j: int|
        0 <= i < (n + m).len() && 0 <= j < (n + m).len() && i != j implies (n + m)[i] != (n
            + m)[j] by {}
    assert forall|x: EventCode| s.to_set().contains(x) implies (m + n).to_set().contains(x) by {
        let i = choose|i: int| 0 <= i < s.len() && s[i] == x;
        if mods.contains(x) {
            s.lemma_filter_contains(|c: EventCode| mods.contains(c), i);
            let j = choose|j: int| 0 <= j < m.len() && m[j] == x;
            assert((m + n)[j] == x);
        } else {
            s.lemma_filter_contains(|c: EventCode| !mods.contains(c), i);
            let j = choose|j: int| 0 <= j < n.len() && n[j] == x;
            assert((m + n)[m.len() + j] == x);
        }
    }
    assert forall|x: EventCode| (m + n).to_set().contains(x) implies s.to_set().contains(x) by {
        let i = choose|i: int| 0 <= i < (m + n).len() && (m + n)[i] == x;
        if i < m.len() {
            assert(m.contains(m[i]));
            lemma_filter_subset_contains(s, |c: EventCode| mods.contains(c), x);
        } else {
            assert(n.contains(n[i - m.len()]));
            lemma_filter_subset_contains(s, |c: EventCode| !mods.contains(c), x);
        }
    }
    assert forall|x: EventCode| (n + m).to_set().contains(x) <==> (m + n).to_set().contains(
        x,
    ) by {
        if (n + m).to_set().contains(x) {
            let i = choose|i: int| 0 <= i < (n + m).len() && (n + m)[i] == x;
            if i < n.len() {
                assert((m + n)[m.len() + i] == x);
            } else {
                assert((m + n)[i - n.len()] == x);
            }
        }
        if (m + n).to_set().contains(x) {
            let i = choose|i: int| 0 <= i < (m + n).len() && (m + n)[i] == x;
            if i < m.len() {
                assert((n + m)[n.len() + i] == x);
            } else {
                assert((n + m)[i - m.len()] == x);
            }
        }
    }
    assert forall|i: int, j: int|
        0 <= i < j < (m + n).len() && mods.contains(#[trigger] (m + n)[j]) implies mods.contains(
        #[trigger] (m + n)[i],
    ) by {
        if i >= m.len() {
            assert(!mods.contains(n[i - m.len()]));
            if j >= m.len() {
                assert(!mods.contains(n[j - m.len()]));
            }
        }
    }
    assert forall|i: int, j: int|
        0 <= i < j < (n + m).len() && mods.contains(#[trigger] (n + m)[i]) implies mods.contains(
        #[trigger] (n + m)[j],
    ) by {
        if i < n.len() {
            assert(!mods.contains(n[i]));
        } else {
            assert(j >= n.len());
            assert(mods.contains(m[j - n.len()]));
        }
    }
}

proof fn lemma_filter_no_duplicates(s: Seq<EventCode>, p: spec_fn(EventCode) -> bool)
    requires
        s.no_duplicates(),
    ensures
        s.filter(p).no_duplicates(),
    decreases s.len(),
{
    broadcast use vstd::seq_lib::group_filter_ensures;

    if s.len() > 0 {
        let t = s.drop_last();
        lemma_filter_no_duplicates(t, p);
        assert(s =~= t.push(s.last()));
        t.lemma_filter_push(s.last(), p);
        if p(s.last()) {
            assert(s.filter(p) == t.filter(p).push(s.last()));
            assert forall|i: int| 0 <= i < t.filter(p).len() implies t.filter(p)[i]
                != s.last() by {
                assert(p(t.filter(p)[i]));
                assert(t.contains(t.filter(p)[i])) by {
                    lemma_filter_subset_contains(t, p, t.filter(p)[i]);
                    assert(t.filter(p).contains(t.filter(p)[i]));
                }
                let j = choose|j: int| 0 <= j < t.len() && t[j] == t.filter(p)[i];
                assert(s[j] == t.filter(p)[i]);
                assert(s[j] != s[s.len() - 1]);
            }
        } else {
            assert(s.filter(p) == t.filter(p));
        }
    }
}

proof fn lemma_filter_subset_contains(s: Seq<EventCode>, p: spec_fn(EventCode) -> bool, x: EventCode)
    requires
        s.filter(p).contains(x),
    ensures
        s.contains(x),
        p(x),
    decreases s.len(),
{
    broadcast use vstd::seq_lib::group_filter_ensures;

    if s.len() > 0 {
        let t = s.drop_last();
        assert(s =~= t.push(s.last()));
        t.lemma_filter_push(s.last(), p);
        if p(s.last()) && s.last() == x {
        } else {
            assert(t.filter(p).contains(x)) by {
                if p(s.last()) {
                    assert(s.filter(p) == t.filter(p).push(s.last()));
                    let i = choose|i: int| 0 <= i < s.filter(p).len() && s.filter(p)[i] == x;
                    assert(i < t.filter(p).len());
                } else {
                    assert(s.filter(p) == t.filter(p));
                }
            }
            lemma_filter_subset_contains(t, p, x);
            let j = choose|j: int| 0 <= j < t.len() && t[j] == x;
            assert(s[j] == x);
        }
    }
}

proof fn lemma_held_remove_at(s: Seq<HeldKey>, f: int)
    requires
        s.map_values(|h: HeldKey| h.code).no_duplicates(),
        0 <= f < s.len(),
    ensures
        s.remove(f).len() == s.len() - 1,
        forall|j: int| 0 <= j < f ==> #[trigger] s.remove(f)[j] == s[j],
        forall|j: int| f <= j < s.len() - 1 ==> #[trigger] s.remove(f)[j] == s[j + 1],
        s.remove(f).map_values(|h: HeldKey| h.code).no_duplicates(),
        s.remove(f).to_set() =~= s.to_set().remove(s[f]),
        forall|j: int|
            0 <= j < s.remove(f).len() ==> (#[trigger] s.remove(f)[j]).code != s[f].code,
{
    let r = s.remove(f);
    s.remove_ensures(f);
    assert forall|j: int| 0 <= j < r.len() implies (#[trigger] r[j]).code != s[f].code by {
        let j0 = if j < f {
            j
        } else {
            j + 1
        };
        assert(r[j] == s[j0]);
        assert(s.map_values(|h: HeldKey| h.code)[j0] != s.map_values(|h: HeldKey| h.code)[f]);
    }
    let mc = r.map_values(|h: HeldKey| h.code);
    assert forall|p: int, q: int|
        0 <= p < r.len() && 0 <= q < r.len() && p != q implies #[trigger] mc[p] != #[trigger] mc[q] by {
        let p0 = if p < f {
            p
        } else {
            p + 1
        };
        let q0 = if q < f {
            q
        } else {
            q + 1
        };
        assert(r[p] == s[p0] && r[q] == s[q0]);
        assert(s.map_values(|h: HeldKey| h.code)[p0] != s.map_values(|h: HeldKey| h.code)[q0]);
    }
    assert forall|x: HeldKey| r.to_set().contains(x) implies s.to_set().remove(s[f]).contains(
        x,
    ) by {
        let j = choose|j: int| 0 <= j < r.len() && r[j] == x;
        let j0 = if j < f {
            j
        } else {
            j + 1
        };
        assert(s[j0] == x);
        assert(x.code != s[f].code);
    }
    assert forall|x: HeldKey| s.to_set().remove(s[f]).contains(x) implies r.to_set().contains(
        x,
    ) by {
        let j = choose|j: int| 0 <= j < s.len() && s[j] == x;
        if j != f {
            if j < f {
                assert(r[j] == x);
            } else {
                assert(r[j - 1] == x);
            }
        }
    }
}

proof fn lemma_keyset_push(s: Seq<EventCode>, c: EventCode)
    ensures
        keyset(s.push(c)) =~= if c.family == EventType::Key {
            keyset(s).insert(c)
        } else {
            keyset(s)
        },
{
    assert forall|x: EventCode| keyset(s.push(c)).contains(x) implies (if c.family
        == EventType::Key {
        keyset(s).insert(c)
    } else {
        keyset(s)
    }).contains(x) by {
        let j = choose|j: int| 0 <= j < s.push(c).len() && s.push(c)[j] == x;
        if j < s.len() {
            assert(s[j] == x);
        }
    }
    assert forall|x: EventCode| (if c.family == EventType::Key {
        keyset(s).insert(c)
    } else {
        keyset(s)
    }).contains(x) implies keyset(s.push(c)).contains(x) by {
        if keyset(s).contains(x) {
            let j = choose|j: int| 0 <= j < s.len() && s[j] == x;
            assert(s.push(c)[j] == x);
        } else {
            assert(s.push(c)[s.len() as int] == x);
        }
    }
}

} // verus!
