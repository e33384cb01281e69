//! The key-set resolver: a pure two-phase function from the set of held
//! physical keys and the mapping table to the set of keys that should be
//! held on the output.
//!
//! Phase A walks the rules in declaration order and substitutes the
//! `hold` set of every dual-role rule whose input is held. Phase B walks
//! the rules again and applies every chord remap whose full input is
//! visible, where an applied rule hides its non-modifier inputs and
//! outputs from later rules.
use vstd::prelude::*;

use crate::mapping::{EventCode, KeyCodeWrapper, Mapping};

verus! {

/// The set of codes named by a sequence of key references.
pub open spec fn codes_of(input: Seq<KeyCodeWrapper>) -> Set<EventCode> {
    Set::new(|c: EventCode| exists|i: int| 0 <= i < input.len() && input[i].code == c)
}

/// One step of phase A: if the rule is a dual-role rule whose input is
/// in the working set, replace the input with the rule's hold keys.
pub open spec fn step_a(keys: Set<EventCode>, m: Mapping) -> Set<EventCode> {
    match m {
        Mapping::DualRole { input, hold, .. } => {
            if keys.contains(input) {
                keys.remove(input).union(hold@.to_set())
            } else {
                keys
            }
        },
        Mapping::Remap { .. } => keys,
    }
}

/// Phase A applied to every rule of `maps`, in declaration order.
pub open spec fn phase_a(keys: Set<EventCode>, maps: Seq<Mapping>) -> Set<EventCode>
    decreases maps.len(),
{
    if maps.len() == 0 {
        keys
    } else {
        step_a(phase_a(keys, maps.drop_last()), maps.last())
    }
}

/// One step of phase B, transforming the primary working set and the
/// `visible` set. A remap rule applies when all of its input codes are
/// visible; it then replaces its input codes with its output codes in
/// the primary set, and hides every non-modifier code it removed or
/// inserted from the view of later rules.
pub open spec fn step_b(
    keys: Set<EventCode>,
    visible: Set<EventCode>,
    m: Mapping,
    mods: Seq<EventCode>,
) -> (Set<EventCode>, Set<EventCode>) {
    match m {
        Mapping::Remap { input, output } => {
            let in_codes = codes_of(input@);
            let out_codes = codes_of(output@);
            if in_codes.subset_of(visible) {
                (
                    keys.difference(in_codes).union(out_codes),
                    visible.difference(
                        Set::new(
                            |c: EventCode|
                                (in_codes.contains(c) || out_codes.contains(c)) && !mods.contains(
                                    c,
                                ),
                        ),
                    ),
                )
            } else {
                (keys, visible)
            }
        },
        Mapping::DualRole { .. } => (keys, visible),
    }
}

/// Phase B applied to every rule of `maps`, in declaration order.
pub open spec fn phase_b(
    keys: Set<EventCode>,
    visible: Set<EventCode>,
    maps: Seq<Mapping>,
    mods: Seq<EventCode>,
) -> (Set<EventCode>, Set<EventCode>)
    decreases maps.len(),
{
    if maps.len() == 0 {
        (keys, visible)
    } else {
        let prev = phase_b(keys, visible, maps.drop_last(), mods);
        step_b(prev.0, prev.1, maps.last(), mods)
    }
}

/// The set of keys that should be held on the output when the keys of
/// `held` are physically held: phase A followed by phase B, where the
/// visible set starts equal to the post-phase-A set.
pub open spec fn spec_desired_keys(
    held: Set<EventCode>,
    maps: Seq<Mapping>,
    mods: Seq<EventCode>,
) -> Set<EventCode> {
    let a = phase_a(held, maps);
    phase_b(a, a, maps, mods).0
}

/// Whether the sequence of codes `v` contains `c`.
pub fn vec_contains_code(v: &Vec<EventCode>, c: &EventCode) -> (r: bool)
    ensures
        r == v@.contains(*c),
{
    let mut i: usize = 0;
    while i < v.len()
        invariant
            0 <= i <= v@.len(),
            forall|j: int| 0 <= j < i ==> v@[j] != *c,
        decreases v@.len() - i,
    {
        if v[i] == *c {
            return true;
        }
        i = i + 1;
    }
    false
}

/// The index of the first occurrence of `c` in `v`, if any.
pub fn find_code(v: &Vec<EventCode>, c: &EventCode) -> (r: Option<usize>)
    ensures
        match r {
            Some(i) => i < v@.len() && v@[i as int] == *c && (forall|j: int|
                0 <= j < i ==> v@[j] != *c),
            None => !v@.contains(*c),
        },
{
    let mut i: usize = 0;
    while i < v.len()
        invariant
            0 <= i <= v@.len(),
            forall|j: int| 0 <= j < i ==> v@[j] != *c,
        decreases v@.len() - i,
    {
        if v[i] == *c {
            return Some(i);
        }
        i = i + 1;
    }
    None
}

/// Removes the code `c` from a duplicate-free sequence of codes, if present.
pub fn vec_remove_code(v: &mut Vec<EventCode>, c: &EventCode)
    requires
        old(v)@.no_duplicates(),
    ensures
        final(v)@.no_duplicates(),
        final(v)@.to_set() =~= old(v)@.to_set().remove(*c),
{
    let ghost orig = v@;
    match find_code(v, c) {
        Some(i) => {
            v.remove(i);
            proof {
                assert(v@ =~= orig.subrange(0, i as int) + orig.subrange(
                    i + 1,
                    orig.len() as int,
                ));
                lemma_remove_at_set(orig, i as int, *c);
                assert(v@.no_duplicates());
                assert(v@.to_set() =~= orig.to_set().remove(*c));
            }
        },
        None => {
            proof {
                assert(v@.to_set() =~= orig.to_set().remove(*c)) by {
                    assert(!v@.to_set().contains(*c));
                }
            }
        },
    }
}

proof fn lemma_remove_at_set(s: Seq<EventCode>, i: int, c: EventCode)
    requires
        s.no_duplicates(),
        0 <= i < s.len(),
        s[i] == c,
    ensures
        (s.subrange(0, i) + s.subrange(i + 1, s.len() as int)).no_duplicates(),
        (s.subrange(0, i) + s.subrange(i + 1, s.len() as int)).to_set() =~= s.to_set().remove(c),
{
    let t = s.subrange(0, i) + s.subrange(i + 1, s.len() as int);
    assert forall|x: EventCode| t.to_set().contains(x) implies s.to_set().remove(c).contains(
        x,
    ) by {
        let j = choose|j: int| 0 <= j < t.len() && t[j] == x;
        if j < i {
            assert(s[j] == x);
            assert(s[j] != s[i]);
        } else {
            assert(s[j + 1] == x);
            assert(s[j + 1] != s[i]);
        }
    }
    assert forall|x: EventCode| s.to_set().remove(c).contains(x) implies t.to_set().contains(
        x,
    ) by {
        let j = choose|j: int| 0 <= j < s.len() && s[j] == x;
        assert(j != i);
        if j < i {
            assert(t[j] == x);
        } else {
            assert(t[j - 1] == x);
        }
    }
    assert forall|p: int, q: int| 0 <= p < q < t.len() implies t[p] != t[q] by {
        let p0 = if p < i {
            p
        } else {
            p + 1
        };
        let q0 = if q < i {
            q
        } else {
            q + 1
        };
        assert(t[p] == s[p0] && t[q] == s[q0]);
    }
}

/// Inserts the code `c` into a duplicate-free sequence of codes, if absent.
pub fn vec_insert_code(v: &mut Vec<EventCode>, c: &EventCode)
    requires
        old(v)@.no_duplicates(),
    ensures
        final(v)@.no_duplicates(),
        final(v)@.to_set() =~= old(v)@.to_set().insert(*c),
        old(v)@.to_set().contains(*c) ==> final(v)@ == old(v)@,
        !old(v)@.to_set().contains(*c) ==> final(v)@ == old(v)@.push(*c),
{
    if !vec_contains_code(v, c) {
        let ghost orig = v@;
        v.push(*c);
        proof {
            assert(v@.to_set() =~= orig.to_set().insert(*c)) by {
                assert(forall|x: EventCode|
                    v@.contains(x) <==> (orig.contains(x) || x == *c)) by {
                    assert(forall|j: int|
                        0 <= j < orig.len() ==> v@[j] == orig[j]);
                    assert(v@[orig.len() as int] == *c);
                }
            }
            assert(v@.no_duplicates());
        }
    } else {
        proof {
            assert(v@.to_set() =~= old(v)@.to_set().insert(*c));
        }
    }
}

/// The codes of `a` that do not occur in `b`, in the order of `a`.
pub fn vec_difference(a: &Vec<EventCode>, b: &Vec<EventCode>) -> (r: Vec<EventCode>)
    requires
        a@.no_duplicates(),
    ensures
        r@ == a@.filter(|c: EventCode| !b@.contains(c)),
        r@.no_duplicates(),
        r@.to_set() =~= a@.to_set().difference(b@.to_set()),
        r@.len() == 0 <==> a@.to_set().difference(b@.to_set()).is_empty(),
{
    broadcast use vstd::seq_lib::group_filter_ensures;

    let mut r: Vec<EventCode> = Vec::new();
    let mut i: usize = 0;
    while i < a.len()
        invariant
            0 <= i <= a@.len(),
            r@ == a@.subrange(0, i as int).filter(|c: EventCode| !b@.contains(c)),
        decreases a@.len() - i,
    {
        if !vec_contains_code(b, &a[i]) {
            r.push(a[i]);
        }
        proof {
            let prev = a@.subrange(0, i as int);
            let x = a@[i as int];
            assert(a@.subrange(0, i + 1) =~= prev.push(x));
            prev.lemma_filter_push(x, |c: EventCode| !b@.contains(c));
        }
        i = i + 1;
    }
    proof {
        assert(a@.subrange(0, a@.len() as int) =~= a@);
        lemma_filter_diff_props(a@, b@);
        if r@.len() == 0 {
            assert forall|c: EventCode| !a@.to_set().difference(b@.to_set()).contains(c) by {
                if a@.to_set().difference(b@.to_set()).contains(c) {
                    assert(r@.to_set().contains(c));
                }
            }
        } else {
            assert(r@.to_set().contains(r@[0]));
        }
    }
    r
}

proof fn lemma_filter_diff_props(a: Seq<EventCode>, b: Seq<EventCode>)
    requires
        a.no_duplicates(),
    ensures
        a.filter(|c: EventCode| !b.contains(c)).no_duplicates(),
        a.filter(|c: EventCode| !b.contains(c)).to_set() =~= a.to_set().difference(b.to_set()),
    decreases a.len(),
{
    broadcast use vstd::seq_lib::group_filter_ensures;

    let p = |c: EventCode| !b.contains(c);
    if a.len() == 0 {
        assert(a.filter(p).to_set() =~= a.to_set().difference(b.to_set()));
    } else {
        let t = a.drop_last();
        lemma_filter_diff_props(t, b);
        assert(a =~= t.push(a.last()));
        t.lemma_filter_push(a.last(), p);
        assert(t.filter(p).to_set() =~= t.to_set().difference(b.to_set()));
        if p(a.last()) {
            assert(a.filter(p) == t.filter(p).push(a.last()));
            assert forall|i: int| 0 <= i < t.filter(p).len() implies t.filter(p)[i]
                != a.last() by {
                assert(t.filter(p).contains(t.filter(p)[i]));
                assert(t.filter(p).to_set().contains(t.filter(p)[i]));
                let j = choose|j: int| 0 <= j < t.len() && t[j] == t.filter(p)[i];
                assert(a[j] == t.filter(p)[i]);
                assert(a[j] != a[a.len() - 1]);
            }
            assert(a.filter(p).no_duplicates());
            assert(a.filter(p).to_set() =~= t.filter(p).to_set().insert(a.last())) by {
                assert forall|x: EventCode| a.filter(p).to_set().contains(x) implies t.filter(
                    p,
                ).to_set().insert(a.last()).contains(x) by {
                    let j = choose|j: int|
                        0 <= j < a.filter(p).len() && a.filter(p)[j] == x;
                    if j < t.filter(p).len() {
                        assert(t.filter(p)[j] == x);
                    }
                }
                assert forall|x: EventCode|
                    t.filter(p).to_set().insert(a.last()).contains(x) implies a.filter(
                    p,
                ).to_set().contains(x) by {
                    if t.filter(p).to_set().contains(x) {
                        let j = choose|j: int|
                            0 <= j < t.filter(p).len() && t.filter(p)[j] == x;
                        assert(a.filter(p)[j] == x);
                    } else {
                        assert(a.filter(p).last() == x);
                    }
                }
            }
            assert(a.to_set() =~= t.to_set().insert(a.last()));
            assert(a.filter(p).to_set() =~= a.to_set().difference(b.to_set()));
        } else {
            assert(a.filter(p) == t.filter(p));
            assert(a.to_set() =~= t.to_set().insert(a.last()));
            assert(a.filter(p).to_set() =~= a.to_set().difference(b.to_set()));
        }
    }
}

/// Whether every input code of `input` is contained in the code sequence `v`.
pub fn codes_subset_of(input: &Vec<KeyCodeWrapper>, v: &Vec<EventCode>) -> (r: bool)
    ensures
        r == codes_of(input@).subset_of(v@.to_set()),
{
    let mut i: usize = 0;
    while i < input.len()
        invariant
            0 <= i <= input@.len(),
            forall|j: int| 0 <= j < i ==> v@.contains((#[trigger] input@[j]).code),
        decreases input@.len() - i,
    {
        if !vec_contains_code(v, &input[i].code) {
            proof {
                assert(codes_of(input@).contains(input@[i as int].code));
            }
            return false;
        }
        i = i + 1;
    }
    proof {
        assert forall|c: EventCode| codes_of(input@).contains(c) implies v@.to_set().contains(
            c,
        ) by {
            let j = choose|j: int| 0 <= j < input@.len() && input@[j].code == c;
            assert(v@.contains(input@[j].code));
        }
    }
    true
}

/// Computes the effective set of output keys for the held set `held`
/// under the rules `mappings` and the modifier set `modifiers`. Pure:
/// the result depends only on the three arguments.
pub fn compute_keys(
    held: &Vec<EventCode>,
    mappings: &Vec<Mapping>,
    modifiers: &Vec<EventCode>,
) -> (r: Vec<EventCode>)
    requires
        held@.no_duplicates(),
    ensures
        r@.no_duplicates(),
        r@.to_set() == spec_desired_keys(held@.to_set(), mappings@, modifiers@),
{
    let mut keys: Vec<EventCode> = Vec::new();
    let mut i: usize = 0;
    // Start with the held input keys.
    while i < held.len()
        invariant
            0 <= i <= held@.len(),
            held@.no_duplicates(),
            keys@ == held@.subrange(0, i as int),
        decreases held@.len() - i,
    {
        keys.push(held[i]);
        proof {
            assert(keys@ =~= held@.subrange(0, i + 1));
        }
        i = i + 1;
    }
    proof {
        assert(keys@ =~= held@);
    }

    // Phase A: dual-role substitution, in declaration order.
    let mut i: usize = 0;
    while i < mappings.len()
        invariant
            0 <= i <= mappings@.len(),
            keys@.no_duplicates(),
            keys@.to_set() == phase_a(held@.to_set(), mappings@.subrange(0, i as int)),
        decreases mappings@.len() - i,
    {
        let ghost pre = keys@.to_set();
        match &mappings[i] {
            Mapping::DualRole { input, hold, .. } => {
                if vec_contains_code(&keys, input) {
                    vec_remove_code(&mut keys, input);
                    let mut h: usize = 0;
                    while h < hold.len()
                        invariant
                            0 <= h <= hold@.len(),
                            keys@.no_duplicates(),
                            keys@.to_set() =~= pre.remove(*input).union(
                                hold@.subrange(0, h as int).to_set(),
                            ),
                        decreases hold@.len() - h,
                    {
                        vec_insert_code(&mut keys, &hold[h]);
                        proof {
                            assert(hold@.subrange(0, h + 1).to_set() =~= hold@.subrange(
                                0,
                                h as int,
                            ).to_set().insert(hold@[h as int])) by {
                                lemma_subrange_succ_to_set(hold@, h as int);
                            }
                            assert(keys@.to_set() =~= pre.remove(*input).union(
                                hold@.subrange(0, h + 1).to_set(),
                            ));
                        }
                        h = h + 1;
                    }
                    proof {
                        assert(hold@.subrange(0, hold@.len() as int) =~= hold@);
                        assert(keys@.to_set() =~= step_a(pre, mappings@[i as int]));
                    }
                } else {
                    proof {
                        assert(keys@.to_set() =~= step_a(pre, mappings@[i as int]));
                    }
                }
            },
            Mapping::Remap { .. } => {
                proof {
                    assert(keys@.to_set() =~= step_a(pre, mappings@[i as int]));
                }
            },
        }
        proof {
            lemma_phase_a_snoc(held@.to_set(), mappings@, i as int);
        }
        i = i + 1;
    }
    proof {
        assert(mappings@.subrange(0, mappings@.len() as int) =~= mappings@);
    }
    let ghost after_a = keys@.to_set();

    // Phase B: chord remaps, in declaration order, tracking visibility.
    let mut visible: Vec<EventCode> = Vec::new();
    let mut i: usize = 0;
    while i < keys.len()
        invariant
            0 <= i <= keys@.len(),
            keys@.no_duplicates(),
            visible@ == keys@.subrange(0, i as int),
        decreases keys@.len() - i,
    {
        visible.push(keys[i]);
        proof {
            assert(visible@ =~= keys@.subrange(0, i + 1));
        }
        i = i + 1;
    }
    proof {
        assert(visible@ =~= keys@);
    }

    let mut i: usize = 0;
    while i < mappings.len()
        invariant
            0 <= i <= mappings@.len(),
            keys@.no_duplicates(),
            visible@.no_duplicates(),
            (keys@.to_set(), visible@.to_set()) == phase_b(
                after_a,
                after_a,
                mappings@.subrange(0, i as int),
                modifiers@,
            ),
        decreases mappings@.len() - i,
    {
        let ghost pre_k = keys@.to_set();
        let ghost pre_v = visible@.to_set();
        match &mappings[i] {
            Mapping::Remap { input, output } => {
                if codes_subset_of(input, &visible) {
                    let ghost in_codes = codes_of(input@);
                    let ghost out_codes = codes_of(output@);
                    let ghost hidden = Set::new(
                        |c: EventCode|
                            (in_codes.contains(c) || out_codes.contains(c))
                                && !modifiers@.contains(c),
                    );
                    let mut j: usize = 0;
                    while j < input.len()
                        invariant
                            0 <= j <= input@.len(),
                            keys@.no_duplicates(),
                            visible@.no_duplicates(),
                            in_codes == codes_of(input@),
                            keys@.to_set() =~= pre_k.difference(
                                codes_of(input@.subrange(0, j as int)),
                            ),
                            visible@.to_set() =~= pre_v.difference(
                                codes_of(input@.subrange(0, j as int)).intersect(
                                    Set::new(|c: EventCode| !modifiers@.contains(c)),
                                ),
                            ),
                        decreases input@.len() - j,
                    {
                        vec_remove_code(&mut keys, &input[j].code);
                        if !crate::remapper::is_modifier_in(modifiers, &input[j].code) {
                            vec_remove_code(&mut visible, &input[j].code);
                        }
                        proof {
                            lemma_codes_of_subrange_succ(input@, j as int);
                            assert(keys@.to_set() =~= pre_k.difference(
                                codes_of(input@.subrange(0, j + 1)),
                            ));
                            assert(visible@.to_set() =~= pre_v.difference(
                                codes_of(input@.subrange(0, j + 1)).intersect(
                                    Set::new(|c: EventCode| !modifiers@.contains(c)),
                                ),
                            ));
                        }
                        j = j + 1;
                    }
                    proof {
                        assert(input@.subrange(0, input@.len() as int) =~= input@);
                    }
                    let ghost mid_k = keys@.to_set();
                    let ghost mid_v = visible@.to_set();
                    let mut j: usize = 0;
                    while j < output.len()
                        invariant
                            0 <= j <= output@.len(),
                            keys@.no_duplicates(),
                            visible@.no_duplicates(),
                            out_codes == codes_of(output@),
                            keys@.to_set() =~= mid_k.union(
                                codes_of(output@.subrange(0, j as int)),
                            ),
                            visible@.to_set() =~= mid_v.difference(
                                codes_of(output@.subrange(0, j as int)).intersect(
                                    Set::new(|c: EventCode| !modifiers@.contains(c)),
                                ),
                            ),
                        decreases output@.len() - j,
                    {
                        vec_insert_code(&mut keys, &output[j].code);
                        if !crate::remapper::is_modifier_in(modifiers, &output[j].code) {
                            vec_remove_code(&mut visible, &output[j].code);
                        }
                        proof {
                            lemma_codes_of_subrange_succ(output@, j as int);
                            assert(keys@.to_set() =~= mid_k.union(
                                codes_of(output@.subrange(0, j + 1)),
                            ));
                            assert(visible@.to_set() =~= mid_v.difference(
                                codes_of(output@.subrange(0, j + 1)).intersect(
                                    Set::new(|c: EventCode| !modifiers@.contains(c)),
                                ),
                            ));
                        }
                        j = j + 1;
                    }
                    proof {
                        assert(output@.subrange(0, output@.len() as int) =~= output@);
                        assert(keys@.to_set() =~= pre_k.difference(in_codes).union(out_codes));
                        assert(visible@.to_set() =~= pre_v.difference(hidden));
                        assert((keys@.to_set(), visible@.to_set()) == step_b(
                            pre_k,
                            pre_v,
                            mappings@[i as int],
                            modifiers@,
                        ));
                    }
                } else {
                    proof {
                        assert((keys@.to_set(), visible@.to_set()) == step_b(
                            pre_k,
                            pre_v,
                            mappings@[i as int],
                            modifiers@,
                        ));
                    }
                }
            },
            Mapping::DualRole { .. } => {
                proof {
                    assert((keys@.to_set(), visible@.to_set()) == step_b(
                        pre_k,
                        pre_v,
                        mappings@[i as int],
                        modifiers@,
                    ));
                }
            },
        }
        proof {
            lemma_phase_b_snoc(after_a, after_a, mappings@, modifiers@, i as int);
        }
        i = i + 1;
    }
    proof {
        assert(mappings@.subrange(0, mappings@.len() as int) =~= mappings@);
    }
    keys
}

proof fn lemma_phase_a_snoc(keys: Set<EventCode>, maps: Seq<Mapping>, i: int)
    requires
        0 <= i < maps.len(),
    ensures
        phase_a(keys, maps.subrange(0, i + 1)) == step_a(
            phase_a(keys, maps.subrange(0, i)),
            maps[i],
        ),
{
    let pre = maps.subrange(0, i + 1);
    assert(pre.drop_last() =~= maps.subrange(0, i));
    assert(pre.last() == maps[i]);
}

proof fn lemma_phase_b_snoc(
    keys: Set<EventCode>,
    visible: Set<EventCode>,
    maps: Seq<Mapping>,
    mods: Seq<EventCode>,
    i: int,
)
    requires
        0 <= i < maps.len(),
    ensures
        phase_b(keys, visible, maps.subrange(0, i + 1), mods) == step_b(
            phase_b(keys, visible, maps.subrange(0, i), mods).0,
            phase_b(keys, visible, maps.subrange(0, i), mods).1,
            maps[i],
            mods,
        ),
{
    let pre = maps.subrange(0, i + 1);
    assert(pre.drop_last() =~= maps.subrange(0, i));
    assert(pre.last() == maps[i]);
}

proof fn lemma_subrange_succ_to_set(s: Seq<EventCode>, i: int)
    requires
        0 <= i < s.len(),
    ensures
        s.subrange(0, i + 1).to_set() =~= s.subrange(0, i).to_set().insert(s[i]),
{
    let a = s.subrange(0, i + 1);
    let b = s.subrange(0, i);
    assert forall|x: EventCode| a.to_set().contains(x) implies b.to_set().insert(s[i]).contains(
        x,
    ) by {
        let j = choose|j: int| 0 <= j < a.len() && a[j] == x;
        if j < i {
            assert(b[j] == x);
        }
    }
    assert forall|x: EventCode| b.to_set().insert(s[i]).contains(x) implies a.to_set().contains(
        x,
    ) by {
        if b.to_set().contains(x) {
            let j = choose|j: int| 0 <= j < b.len() && b[j] == x;
            assert(a[j] == x);
        } else {
            assert(a[i] == x);
        }
    }
}

proof fn lemma_codes_of_subrange_succ(s: Seq<KeyCodeWrapper>, i: int)
    requires
        0 <= i < s.len(),
    ensures
        codes_of(s.subrange(0, i + 1)) =~= codes_of(s.subrange(0, i)).insert(s[i].code),
{
    let a = s.subrange(0, i + 1);
    let b = s.subrange(0, i);
    assert forall|x: EventCode| codes_of(a).contains(x) implies codes_of(b).insert(
        s[i].code,
    ).contains(x) by {
        let j = choose|j: int| 0 <= j < a.len() && a[j].code == x;
        if j < i {
            assert(b[j].code == x);
            assert(codes_of(b).contains(x));
        }
    }
    assert forall|x: EventCode| codes_of(b).insert(s[i].code).contains(x) implies codes_of(
        a,
    ).contains(x) by {
        if codes_of(b).contains(x) {
            let j = choose|j: int| 0 <= j < b.len() && b[j].code == x;
            assert(a[j].code == x);
        } else {
            assert(a[i].code == x);
        }
    }
}

} // verus!
