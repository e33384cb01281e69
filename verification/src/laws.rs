//! The engine's universal properties, stated and proved over the spec
//! model: idempotent reconciliation, modifier ordering within batches,
//! balanced presses and releases within a reconciliation, and the
//! specificity of chord lookup.
use vstd::prelude::*;

use crate::mapping::{EventCode, EventType, InputEvent, TimeVal};
use crate::remapper::{
    InputMapper, batch_events, codes_of_remap, is_lookup_result, is_press_order, is_release_order,
    is_reconcile_output, key_events, key_part, keyset, mods_before_nonmods, nonmods_before_mods,
    remap_input, spec_input_len, spec_remap_matches, spec_syn_event, wrapper_codes,
};

verus! {

/// Idempotence of reconciliation. After one reconciliation over a table
/// whose desired set holds only key-family codes, the output set equals
/// the desired set; with no intervening input change the desired set is
/// unchanged, so a second reconciliation has nothing to release and
/// nothing to press and emits no events.
pub proof fn lemma_reconcile_idempotent(m1: InputMapper, m2: InputMapper)
    requires
        m2.input_state == m1.input_state,
        m2.mappings == m1.mappings,
        m2.modifiers == m1.modifiers,
        m2.output_set() == key_part(m1.desired()),
        key_part(m1.desired()) == m1.desired(),
    ensures
        m2.output_set() == m2.desired(),
        m2.output_set().difference(m2.desired()).is_empty(),
        m2.desired().difference(m2.output_set()).is_empty(),
{
    assert(m2.held() =~= m1.held());
    assert(m2.desired() == m1.desired());
    assert(m2.output_set().difference(m2.desired()) =~= Set::<EventCode>::empty());
    assert(m2.desired().difference(m2.output_set()) =~= Set::<EventCode>::empty());
}

/// Modifier ordering on release. In any valid release batch order, every
/// non-modifier stands before every modifier.
pub proof fn lemma_release_ordering(
    s: Seq<EventCode>,
    rel: Set<EventCode>,
    mods: Seq<EventCode>,
)
    requires
        is_release_order(s, rel, mods),
    ensures
        forall|i: int, j: int|
            0 <= i < j < s.len() && mods.contains(#[trigger] s[i]) ==> mods.contains(
                #[trigger] s[j],
            ),
{
}

/// Modifier ordering on press. In any valid press batch order, every
/// modifier stands before every non-modifier.
pub proof fn lemma_press_ordering(s: Seq<EventCode>, prs: Set<EventCode>, mods: Seq<EventCode>)
    requires
        is_press_order(s, prs, mods),
    ensures
        forall|i: int, j: int|
            0 <= i < j < s.len() && mods.contains(#[trigger] s[j]) ==> mods.contains(
                #[trigger] s[i],
            ),
{
}

/// How many events of a batch write the given code with the given value.
pub open spec fn count_writes(s: Seq<InputEvent>, code: EventCode, value: i32) -> nat
    decreases s.len(),
{
    if s.len() == 0 {
        0
    } else {
        count_writes(s.drop_last(), code, value) + (if s.last().event_code == code
            && s.last().value == value {
            1nat
        } else {
            0nat
        })
    }
}

/// How many entries of a code sequence equal the given code.
pub open spec fn count_code(s: Seq<EventCode>, code: EventCode) -> nat
    decreases s.len(),
{
    if s.len() == 0 {
        0
    } else {
        count_code(s.drop_last(), code) + (if s.last() == code {
            1nat
        } else {
            0nat
        })
    }
}

proof fn lemma_count_writes_concat(a: Seq<InputEvent>, b: Seq<InputEvent>, code: EventCode, value: i32)
    ensures
        count_writes(a + b, code, value) == count_writes(a, code, value) + count_writes(
            b,
            code,
            value,
        ),
    decreases b.len(),
{
    if b.len() == 0 {
        assert(a + b =~= a);
    } else {
        lemma_count_writes_concat(a, b.drop_last(), code, value);
        assert((a + b).drop_last() =~= a + b.drop_last());
        assert((a + b).last() == b.last());
    }
}

proof fn lemma_count_key_events(ks: Seq<EventCode>, time: TimeVal, value: i32, code: EventCode)
    requires
        code.family == EventType::Key,
    ensures
        count_writes(key_events(ks, time, value).push(spec_syn_event(time)), code, value)
            == count_code(ks, code),
    decreases ks.len(),
{
    let ev = key_events(ks, time, value).push(spec_syn_event(time));
    assert(ev.last() == spec_syn_event(time));
    assert(spec_syn_event(time).event_code != code);
    assert(ev.drop_last() =~= key_events(ks, time, value));
    lemma_count_plain_key_events(ks, time, value, code);
}

proof fn lemma_count_plain_key_events(ks: Seq<EventCode>, time: TimeVal, value: i32, code: EventCode)
    ensures
        count_writes(key_events(ks, time, value), code, value) == count_code(ks, code),
    decreases ks.len(),
{
    if ks.len() == 0 {
        assert(key_events(ks, time, value) =~= Seq::<InputEvent>::empty());
    } else {
        lemma_count_plain_key_events(ks.drop_last(), time, value, code);
        let m = key_events(ks, time, value);
        assert(m.drop_last() =~= key_events(ks.drop_last(), time, value));
        assert(m.last() == (InputEvent { time, event_code: ks.last(), value }));
    }
}

proof fn lemma_count_key_events_other(
    ks: Seq<EventCode>,
    time: TimeVal,
    value: i32,
    code: EventCode,
    other: i32,
)
    requires
        code.family == EventType::Key,
        other != value,
    ensures
        count_writes(key_events(ks, time, value).push(spec_syn_event(time)), code, other) == 0,
    decreases ks.len(),
{
    let ev = key_events(ks, time, value).push(spec_syn_event(time));
    assert(ev.drop_last() =~= key_events(ks, time, value));
    lemma_count_plain_other(ks, time, value, code, other);
}

proof fn lemma_count_plain_other(
    ks: Seq<EventCode>,
    time: TimeVal,
    value: i32,
    code: EventCode,
    other: i32,
)
    requires
        other != value,
    ensures
        count_writes(key_events(ks, time, value), code, other) == 0,
    decreases ks.len(),
{
    if ks.len() == 0 {
        assert(key_events(ks, time, value) =~= Seq::<InputEvent>::empty());
    } else {
        lemma_count_plain_other(ks.drop_last(), time, value, code, other);
        let m = key_events(ks, time, value);
        assert(m.drop_last() =~= key_events(ks.drop_last(), time, value));
        assert(m.last() == (InputEvent { time, event_code: ks.last(), value }));
    }
}

proof fn lemma_count_code_no_dup(ks: Seq<EventCode>, code: EventCode)
    requires
        ks.no_duplicates(),
    ensures
        count_code(ks, code) == (if ks.contains(code) {
            1nat
        } else {
            0nat
        }),
    decreases ks.len(),
{
    if ks.len() > 0 {
        lemma_count_code_no_dup(ks.drop_last(), code);
        if ks.contains(code) {
            let i = choose|i: int| 0 <= i < ks.len() && ks[i] == code;
            if ks.last() == code {
                assert(!ks.drop_last().contains(code)) by {
                    if ks.drop_last().contains(code) {
                        let j = choose|j: int|
                            0 <= j < ks.len() - 1 && ks.drop_last()[j] == code;
                        assert(ks[j] == ks[ks.len() - 1]);
                    }
                }
            } else {
                assert(ks.drop_last()[i] == code);
            }
        } else {
            assert(!ks.drop_last().contains(code)) by {
                if ks.drop_last().contains(code) {
                    let j = choose|j: int| 0 <= j < ks.len() - 1 && ks.drop_last()[j] == code;
                    assert(ks[j] == code);
                }
            }
        }
    }
}

/// Balance within one reconciliation. For any key-family code, the
/// appended events hold exactly one press of it when it is to be pressed
/// and none otherwise, and exactly one release of it when it is to be
/// released and none otherwise. Together with the output-set bookkeeping
/// — the set of held output keys tracks every written event — every
/// synthesized press is balanced by exactly one release before the key
/// can be pressed again.
pub proof fn lemma_batch_balance(
    appended: Seq<InputEvent>,
    rel: Set<EventCode>,
    prs: Set<EventCode>,
    mods: Seq<EventCode>,
    time: TimeVal,
    code: EventCode,
)
    requires
        is_reconcile_output(appended, rel, prs, mods, time),
        code.family == EventType::Key,
    ensures
        count_writes(appended, code, 1) == (if prs.contains(code) {
            1nat
        } else {
            0nat
        }),
        count_writes(appended, code, 0) == (if rel.contains(code) {
            1nat
        } else {
            0nat
        }),
{
    let (rs, ps) = choose|rs: Seq<EventCode>, ps: Seq<EventCode>|
        is_release_order(rs, rel, mods) && is_press_order(ps, prs, mods) && appended
            == #[trigger] batch_events(rs, time, 0) + #[trigger] batch_events(ps, time, 1);
    let rb = batch_events(rs, time, 0);
    let pb = batch_events(ps, time, 1);
    lemma_count_writes_concat(rb, pb, code, 1);
    lemma_count_writes_concat(rb, pb, code, 0);
    if rs.len() == 0 {
        assert(rb =~= Seq::<InputEvent>::empty());
        assert(count_writes(rb, code, 1) == 0 && count_writes(rb, code, 0) == 0);
        assert(!rel.contains(code)) by {
            assert(rs.to_set() == rel);
        }
    } else {
        lemma_count_key_events(rs, time, 0, code);
        lemma_count_key_events_other(rs, time, 0, code, 1);
        lemma_count_code_no_dup(rs, code);
        assert(rs.contains(code) == rel.contains(code)) by {
            assert(rs.to_set() == rel);
        }
    }
    if ps.len() == 0 {
        assert(pb =~= Seq::<InputEvent>::empty());
        assert(count_writes(pb, code, 1) == 0 && count_writes(pb, code, 0) == 0);
        assert(!prs.contains(code)) by {
            assert(ps.to_set() == prs);
        }
    } else {
        lemma_count_key_events(ps, time, 1, code);
        lemma_count_key_events_other(ps, time, 1, code, 0);
        lemma_count_code_no_dup(ps, code);
        assert(ps.contains(code) == prs.contains(code)) by {
            assert(ps.to_set() == prs);
        }
    }
}

proof fn lemma_codes_of_to_set(input: Seq<crate::mapping::KeyCodeWrapper>)
    ensures
        crate::resolver::codes_of(input) =~= wrapper_codes(input).to_set(),
{
    assert forall|x: EventCode| crate::resolver::codes_of(input).contains(x) implies wrapper_codes(
        input,
    ).to_set().contains(x) by {
        let i = choose|i: int| 0 <= i < input.len() && input[i].code == x;
        assert(wrapper_codes(input)[i] == x);
    }
    assert forall|x: EventCode| wrapper_codes(input).to_set().contains(x) implies
        crate::resolver::codes_of(input).contains(x) by {
        let i = choose|i: int| 0 <= i < wrapper_codes(input).len() && wrapper_codes(input)[i] == x;
        assert(input[i].code == x);
    }
}

/// A batch-structured write sequence: a concatenation of batches, each
/// one or more ordinary events followed by exactly one synchronization
/// marker. Equivalently: if non-empty it starts with an ordinary event,
/// ends with a marker, and no two markers are adjacent.
pub open spec fn well_batched(s: Seq<InputEvent>) -> bool {
    s.len() == 0 || {
        &&& !crate::remapper::is_syn(s[0])
        &&& crate::remapper::is_syn(s[s.len() - 1])
        &&& forall|i: int|
            0 < i < s.len() && crate::remapper::is_syn(#[trigger] s[i])
                ==> !crate::remapper::is_syn(s[i - 1])
    }
}

/// A well-formed rule: a dual-role rule holds and taps at least one key,
/// each of the key family; a remap rule has at least one input and one
/// output reference, and emits no synchronization codes.
pub open spec fn rule_wf(m: crate::mapping::Mapping) -> bool {
    match m {
        crate::mapping::Mapping::DualRole { input, hold, tap } => {
            &&& hold@.len() > 0
            &&& tap@.len() > 0
            &&& forall|j: int|
                0 <= j < hold@.len() ==> (#[trigger] hold@[j]).family == EventType::Key
            &&& forall|j: int|
                0 <= j < tap@.len() ==> (#[trigger] tap@[j]).family == EventType::Key
        },
        crate::mapping::Mapping::Remap { input, output } => {
            &&& input@.len() > 0
            &&& output@.len() > 0
            &&& forall|j: int|
                0 <= j < output@.len() ==> (#[trigger] output@[j]).code.family != EventType::Syn
        },
    }
}

/// A well-formed rule table: every rule is well-formed.
pub open spec fn wf_mappings(maps: Seq<crate::mapping::Mapping>) -> bool {
    forall|i: int| 0 <= i < maps.len() ==> rule_wf(#[trigger] maps[i])
}

proof fn lemma_well_batched_concat(a: Seq<InputEvent>, b: Seq<InputEvent>)
    requires
        well_batched(a),
        well_batched(b),
    ensures
        well_batched(a + b),
{
    let s = a + b;
    if a.len() == 0 {
        assert(s =~= b);
    } else if b.len() == 0 {
        assert(s =~= a);
    } else {
        assert(s[0] == a[0]);
        assert(s[s.len() - 1] == b[b.len() - 1]);
        assert forall|i: int|
            0 < i < s.len() && crate::remapper::is_syn(#[trigger] s[i]) implies
            !crate::remapper::is_syn(s[i - 1]) by {
            if i < a.len() {
                assert(s[i] == a[i] && s[i - 1] == a[i - 1]);
            } else if i == a.len() {
                assert(s[i] == b[0]);
            } else {
                assert(s[i] == b[i - a.len()] && s[i - 1] == b[i - a.len() - 1]);
            }
        }
    }
}

proof fn lemma_key_batch_well(ks: Seq<EventCode>, time: TimeVal, value: i32)
    requires
        ks.len() > 0,
        forall|j: int| 0 <= j < ks.len() ==> (#[trigger] ks[j]).family != EventType::Syn,
    ensures
        well_batched(key_events(ks, time, value).push(spec_syn_event(time))),
        well_batched(batch_events(ks, time, value)),
{
    let s = key_events(ks, time, value).push(spec_syn_event(time));
    assert(s[0].event_code == ks[0]);
    assert(crate::remapper::is_syn(s[s.len() - 1]));
    assert forall|i: int|
        0 < i < s.len() && crate::remapper::is_syn(#[trigger] s[i]) implies
        !crate::remapper::is_syn(s[i - 1]) by {
        if i < ks.len() {
            assert(s[i].event_code == ks[i]);
        } else {
            assert(s[i - 1].event_code == ks[i - 1]);
        }
    }
}

proof fn lemma_passthrough_well(ev: InputEvent)
    requires
        ev.event_code.family != EventType::Syn,
    ensures
        well_batched(seq![ev, spec_syn_event(ev.time)]),
{
    let s = seq![ev, spec_syn_event(ev.time)];
    assert(!crate::remapper::is_syn(s[0]));
    assert(crate::remapper::is_syn(s[1]));
}

proof fn lemma_reconcile_well(
    appended: Seq<InputEvent>,
    rel: Set<EventCode>,
    prs: Set<EventCode>,
    mods: Seq<EventCode>,
    time: TimeVal,
)
    requires
        is_reconcile_output(appended, rel, prs, mods, time),
        forall|c: EventCode| rel.contains(c) ==> (#[trigger] c.family) != EventType::Syn,
        forall|c: EventCode| prs.contains(c) ==> (#[trigger] c.family) != EventType::Syn,
    ensures
        well_batched(appended),
{
    let (rs, ps) = choose|rs: Seq<EventCode>, ps: Seq<EventCode>|
        is_release_order(rs, rel, mods) && is_press_order(ps, prs, mods) && appended
            == #[trigger] batch_events(rs, time, 0) + #[trigger] batch_events(ps, time, 1);
    assert forall|j: int| 0 <= j < rs.len() implies (#[trigger] rs[j]).family
        != EventType::Syn by {
        assert(rs.to_set().contains(rs[j]));
    }
    assert forall|j: int| 0 <= j < ps.len() implies (#[trigger] ps[j]).family
        != EventType::Syn by {
        assert(ps.to_set().contains(ps[j]));
    }
    if rs.len() > 0 {
        lemma_key_batch_well(rs, time, 0);
    } else {
        assert(batch_events(rs, time, 0) =~= Seq::<InputEvent>::empty());
    }
    if ps.len() > 0 {
        lemma_key_batch_well(ps, time, 1);
    } else {
        assert(batch_events(ps, time, 1) =~= Seq::<InputEvent>::empty());
    }
    lemma_well_batched_concat(batch_events(rs, time, 0), batch_events(ps, time, 1));
}

proof fn lemma_axis_events_props(
    outs: Seq<crate::mapping::KeyCodeWrapper>,
    in_scale: i32,
    ev: InputEvent,
)
    requires
        forall|j: int| 0 <= j < outs.len() ==> (#[trigger] outs[j]).code.family != EventType::Syn,
    ensures
        crate::remapper::axis_events(outs, in_scale, ev).len() >= outs.len(),
        forall|i: int|
            0 <= i < crate::remapper::axis_events(outs, in_scale, ev).len()
                ==> !crate::remapper::is_syn(
                #[trigger] crate::remapper::axis_events(outs, in_scale, ev)[i],
            ),
    decreases outs.len(),
{
    if outs.len() > 0 {
        lemma_axis_events_props(outs.drop_last(), in_scale, ev);
        assert(outs.last().code.family != EventType::Syn);
    }
}

proof fn lemma_axis_batch_well(
    outs: Seq<crate::mapping::KeyCodeWrapper>,
    in_scale: i32,
    ev: InputEvent,
)
    requires
        outs.len() > 0,
        forall|j: int| 0 <= j < outs.len() ==> (#[trigger] outs[j]).code.family != EventType::Syn,
    ensures
        well_batched(
            crate::remapper::axis_events(outs, in_scale, ev).push(spec_syn_event(ev.time)),
        ),
{
    let a = crate::remapper::axis_events(outs, in_scale, ev);
    lemma_axis_events_props(outs, in_scale, ev);
    let s = a.push(spec_syn_event(ev.time));
    assert(s[0] == a[0]);
    assert(crate::remapper::is_syn(s[s.len() - 1]));
    assert forall|i: int|
        0 < i < s.len() && crate::remapper::is_syn(#[trigger] s[i]) implies
        !crate::remapper::is_syn(s[i - 1]) by {
        if i < a.len() {
            assert(s[i] == a[i]);
        } else {
            assert(s[i - 1] == a[i - 1]);
        }
    }
}

proof fn lemma_phase_a_nonsyn(keys: Set<EventCode>, maps: Seq<crate::mapping::Mapping>)
    requires
        wf_mappings(maps),
        forall|c: EventCode|
            keys.contains(c) ==> (#[trigger] c.family) != EventType::Syn,
    ensures
        forall|c: EventCode|
            crate::resolver::phase_a(keys, maps).contains(c) ==> (#[trigger] c.family)
                != EventType::Syn,
    decreases maps.len(),
{
    if maps.len() > 0 {
        let pre = maps.drop_last();
        assert(wf_mappings(pre)) by {
            assert(forall|i: int| 0 <= i < pre.len() ==> pre[i] == maps[i]);
        }
        lemma_phase_a_nonsyn(keys, pre);
        let kp = crate::resolver::phase_a(keys, pre);
        assert forall|c: EventCode|
            crate::resolver::step_a(kp, maps.last()).contains(c) implies (
        #[trigger] c.family) != EventType::Syn by {
            match maps.last() {
                crate::mapping::Mapping::DualRole { input, hold, .. } => {
                    if kp.contains(input) {
                        if !kp.remove(input).contains(c) {
                            assert(hold@.to_set().contains(c));
                            let j = choose|j: int| 0 <= j < hold@.len() && hold@[j] == c;
                            assert(rule_wf(maps[maps.len() - 1]));
                        }
                    }
                },
                crate::mapping::Mapping::Remap { .. } => {},
            }
        }
    }
}

proof fn lemma_phase_b_nonsyn(
    keys: Set<EventCode>,
    visible: Set<EventCode>,
    maps: Seq<crate::mapping::Mapping>,
    mods: Seq<EventCode>,
)
    requires
        wf_mappings(maps),
        forall|c: EventCode|
            keys.contains(c) ==> (#[trigger] c.family) != EventType::Syn,
    ensures
        forall|c: EventCode|
            crate::resolver::phase_b(keys, visible, maps, mods).0.contains(c) ==> (
            #[trigger] c.family) != EventType::Syn,
    decreases maps.len(),
{
    if maps.len() > 0 {
        let pre = maps.drop_last();
        assert(wf_mappings(pre)) by {
            assert(forall|i: int| 0 <= i < pre.len() ==> pre[i] == maps[i]);
        }
        lemma_phase_b_nonsyn(keys, visible, pre, mods);
        let p = crate::resolver::phase_b(keys, visible, pre, mods);
        assert forall|c: EventCode|
            crate::resolver::step_b(p.0, p.1, maps.last(), mods).0.contains(c) implies (
        #[trigger] c.family) != EventType::Syn by {
            match maps.last() {
                crate::mapping::Mapping::Remap { input, output } => {
                    if crate::resolver::codes_of(input@).subset_of(p.1) {
                        if !p.0.difference(crate::resolver::codes_of(input@)).contains(c) {
                            assert(crate::resolver::codes_of(output@).contains(c));
                            let j = choose|j: int| 0 <= j < output@.len() && output@[j].code == c;
                            assert(rule_wf(maps[maps.len() - 1]));
                        }
                    }
                },
                crate::mapping::Mapping::DualRole { .. } => {},
            }
        }
    }
}

/// The desired key set of a well-formed table contains no
/// synchronization codes, as long as no held key is one.
pub proof fn lemma_desired_nonsyn(
    held: Set<EventCode>,
    maps: Seq<crate::mapping::Mapping>,
    mods: Seq<EventCode>,
)
    requires
        wf_mappings(maps),
        forall|c: EventCode|
            held.contains(c) ==> (#[trigger] c.family) != EventType::Syn,
    ensures
        forall|c: EventCode|
            crate::resolver::spec_desired_keys(held, maps, mods).contains(c) ==> (
            #[trigger] c.family) != EventType::Syn,
{
    lemma_phase_a_nonsyn(held, maps);
    lemma_phase_b_nonsyn(
        crate::resolver::phase_a(held, maps),
        crate::resolver::phase_a(held, maps),
        maps,
        mods,
    );
}

/// Sync discipline. Over a well-formed table, the events that one
/// dispatched input event produces form whole batches: every batch of
/// writes ends with exactly one synchronization marker, and no marker
/// stands in the middle of a batch.
pub proof fn lemma_update_well_batched(
    pre: InputMapper,
    post: InputMapper,
    ev: InputEvent,
    r: Seq<InputEvent>,
)
    requires
        pre.wf(),
        wf_mappings(pre.mappings@),
        ev.event_code.family != EventType::Syn,
        crate::remapper::spec_update_release_untracked(pre, post, ev, r),
        crate::remapper::spec_update_release_tracked(pre, post, ev, r),
        crate::remapper::spec_update_press(pre, post, ev, r),
        crate::remapper::spec_update_repeat(pre, post, ev, r),
        crate::remapper::spec_update_other_value(pre, post, ev, r),
        crate::remapper::spec_update_axis(pre, post, ev, r),
    ensures
        well_batched(r),
{
    let code = ev.event_code;
    let maps = pre.mappings@;
    let mods = pre.modifiers@;
    assert forall|c: EventCode| pre.held().contains(c) implies (#[trigger] c.family)
        != EventType::Syn by {
        let i = choose|i: int|
            0 <= i < pre.input_state@.len() && pre.input_state@[i].code == c;
    }
    assert forall|c: EventCode| pre.output_set().contains(c) implies (#[trigger] c.family)
        != EventType::Syn by {
        let i = choose|i: int|
            0 <= i < pre.output_keys@.len() && pre.output_keys@[i] == c;
    }
    if code.family == EventType::Key {
        if ev.value == 0 {
            if !pre.held().contains(code) {
                lemma_passthrough_well(ev);
            } else {
                let (t, rec) = choose|t: TimeVal, rec: Seq<InputEvent>|
                    #[trigger] crate::remapper::release_tracked_body(pre, post, ev, r, t, rec);
                let dmid = crate::resolver::spec_desired_keys(
                    pre.held().remove(code),
                    maps,
                    mods,
                );
                assert(forall|c: EventCode|
                    pre.held().remove(code).contains(c) ==> (#[trigger] c.family)
                        != EventType::Syn);
                lemma_desired_nonsyn(pre.held().remove(code), maps, mods);
                lemma_reconcile_well(
                    rec,
                    pre.output_set().difference(dmid),
                    dmid.difference(pre.output_set()),
                    mods,
                    ev.time,
                );
                if crate::remapper::any_dual_match(maps, code) && pre.tapping == Some(code)
                    && crate::remapper::spec_within_tap_window(ev.time, t) {
                    let d = choose|d: int|
                        #[trigger] crate::remapper::first_dual_at(maps, code, d);
                    let tap = crate::remapper::dual_tap(maps[d]);
                    assert(rule_wf(maps[d]));
                    assert(tap.len() > 0 && forall|j: int|
                        0 <= j < tap.len() ==> (#[trigger] tap[j]).family == EventType::Key);
                    lemma_key_batch_well(tap, ev.time, 1);
                    lemma_key_batch_well(tap, ev.time, 0);
                    lemma_well_batched_concat(
                        rec,
                        key_events(tap, ev.time, 1).push(spec_syn_event(ev.time)),
                    );
                    lemma_well_batched_concat(
                        rec + key_events(tap, ev.time, 1).push(spec_syn_event(ev.time)),
                        key_events(tap, ev.time, 0).push(spec_syn_event(ev.time)),
                    );
                }
            }
        } else if ev.value == 1 {
            let held1 = pre.held().insert(code);
            let d1 = crate::resolver::spec_desired_keys(held1, maps, mods);
            assert(forall|c: EventCode|
                held1.contains(c) ==> (#[trigger] c.family) != EventType::Syn);
            lemma_desired_nonsyn(held1, maps, mods);
            lemma_reconcile_well(
                r,
                pre.output_set().difference(d1),
                d1.difference(pre.output_set()),
                mods,
                ev.time,
            );
        } else if ev.value == 2 {
            if crate::remapper::any_dual_match(maps, code) {
                let d = choose|d: int| #[trigger] crate::remapper::first_dual_at(maps, code, d);
                let hold = crate::remapper::dual_hold(maps[d]);
                assert(rule_wf(maps[d]));
                lemma_key_batch_well(hold, ev.time, 2);
            } else if crate::remapper::any_remap_match(maps, code, 2, pre.held()) {
                let b = choose|b: int| #[trigger] is_lookup_result(pre, code, 2, b);
                let outs = wrapper_codes(crate::remapper::remap_output(maps[b]));
                assert(rule_wf(maps[b]));
                assert(spec_remap_matches(maps[b], code, 2, pre.held()));
                assert(outs.len() > 0);
                assert forall|j: int| 0 <= j < outs.len() implies (#[trigger] outs[j]).family
                    != EventType::Syn by {
                    assert(crate::remapper::remap_output(maps[b])[j].code.family
                        != EventType::Syn);
                }
                lemma_key_batch_well(outs, ev.time, 2);
            } else {
                lemma_passthrough_well(ev);
            }
        } else {
            lemma_passthrough_well(ev);
        }
    } else {
        if !crate::remapper::any_dual_match(maps, code) && crate::remapper::any_remap_match(
            maps,
            code,
            ev.value,
            pre.held(),
        ) {
            let (b, j) = choose|b: int, j: int|
                #![trigger is_lookup_result(pre, code, ev.value, b), crate::remapper::spec_wrapper_matches(remap_input(pre.mappings@[b])[j], code, ev.value)]
                {
                    &&& is_lookup_result(pre, code, ev.value, b)
                    &&& 0 <= j < remap_input(pre.mappings@[b]).len()
                    &&& crate::remapper::spec_wrapper_matches(
                        remap_input(pre.mappings@[b])[j],
                        code,
                        ev.value,
                    )
                    &&& (forall|k: int|
                        0 <= k < j ==> !crate::remapper::spec_wrapper_matches(
                            #[trigger] remap_input(pre.mappings@[b])[k],
                            code,
                            ev.value,
                        ))
                    &&& r =~= crate::remapper::axis_events(
                        crate::remapper::remap_output(pre.mappings@[b]),
                        remap_input(pre.mappings@[b])[j].scale,
                        ev,
                    ).push(spec_syn_event(ev.time))
                    &&& post.output_set() =~= pre.output_set().difference(
                        keyset(wrapper_codes(crate::remapper::remap_output(pre.mappings@[b]))),
                    )
                    &&& post.tapping == pre.tapping
                };
            assert(rule_wf(maps[b]));
            assert(spec_remap_matches(maps[b], code, ev.value, pre.held()));
            lemma_axis_batch_well(
                crate::remapper::remap_output(maps[b]),
                remap_input(maps[b])[j].scale,
                ev,
            );
        } else {
            lemma_passthrough_well(ev);
        }
    }
}

/// Specificity of chord lookup. When no dual-role rule claims the code
/// and two remap rules both match, with the input codes of the first a
/// strict subset of the input codes of the second, the rule the lookup
/// reports has at least as many inputs as the larger rule — so the
/// smaller rule is never the one chosen.
pub proof fn lemma_specificity(
    m: InputMapper,
    code: EventCode,
    value: i32,
    a: int,
    b: int,
    r: int,
)
    requires
        0 <= a < m.mappings@.len(),
        0 <= b < m.mappings@.len(),
        spec_remap_matches(m.mappings@[a], code, value, m.held()),
        spec_remap_matches(m.mappings@[b], code, value, m.held()),
        wrapper_codes(remap_input(m.mappings@[a])).no_duplicates(),
        wrapper_codes(remap_input(m.mappings@[b])).no_duplicates(),
        codes_of_remap(m.mappings@[a]).subset_of(codes_of_remap(m.mappings@[b])),
        codes_of_remap(m.mappings@[a]) != codes_of_remap(m.mappings@[b]),
        !(exists|j: int|
            0 <= j < m.mappings@.len() && crate::remapper::spec_dual_matches(
                #[trigger] m.mappings@[j],
                code,
            )),
        is_lookup_result(m, code, value, r),
    ensures
        spec_input_len(m.mappings@[r]) >= spec_input_len(m.mappings@[b]),
        spec_input_len(m.mappings@[a]) < spec_input_len(m.mappings@[r]),
        r != a,
{
    let ia = remap_input(m.mappings@[a]);
    let ib = remap_input(m.mappings@[b]);
    let ca = codes_of_remap(m.mappings@[a]);
    let cb = codes_of_remap(m.mappings@[b]);
    lemma_codes_of_to_set(ia);
    lemma_codes_of_to_set(ib);
    assert(ca == wrapper_codes(ia).to_set());
    assert(cb == wrapper_codes(ib).to_set());
    wrapper_codes(ia).unique_seq_to_set();
    wrapper_codes(ib).unique_seq_to_set();
    let c = choose|c: EventCode| cb.contains(c) && !ca.contains(c);
    assert(cb.contains(c) && !ca.contains(c)) by {
        if forall|c: EventCode| #[trigger] cb.contains(c) ==> ca.contains(c) {
            assert(ca =~= cb);
        }
    }
    assert(ca.subset_of(cb.remove(c)));
    vstd::set_lib::lemma_len_subset(ca, cb.remove(c));
    assert(cb.remove(c).len() == cb.len() - 1);
    assert(ia.len() < ib.len()) by {
        assert(wrapper_codes(ia).len() == ia.len());
        assert(wrapper_codes(ib).len() == ib.len());
    }
    assert(spec_input_len(m.mappings@[a]) < spec_input_len(m.mappings@[b]));
    assert(spec_input_len(m.mappings@[b]) <= spec_input_len(m.mappings@[r]));
}

} // verus!
