//! The data model of the remapping engine: event families, event codes,
//! key references with direction filters and scales, and the two kinds of
//! remapping rules.
use vstd::prelude::*;
use vstd::string::StringSliceAdditionalSpecFns;

verus! {

/// The family of an event code: which class of evdev event it belongs to.
/// `Unknown` is the catch-all family; it is never treated as mapped.
#[derive(Clone, Copy, Debug, PartialEq, Eq, Structural)]
pub enum EventType {
    Syn,
    Key,
    Rel,
    Abs,
    Msc,
    Sw,
    Led,
    Snd,
    Rep,
    Ff,
    Pwr,
    FfStatus,
    Unknown,
}

/// An event code: a family together with the numeric code within that
/// family. Equality is structural.
#[derive(Clone, Copy, Debug, PartialEq, Eq, Structural)]
pub struct EventCode {
    pub family: EventType,
    pub code: u16,
}

/// Event codes double as key codes throughout the engine.
pub type KeyCode = EventCode;

/// Classifies an event code into its event family. Total over all codes.
pub fn to_event_type(code: &EventCode) -> (r: EventType)
    ensures
        r == code.family,
{
    code.family
}

/// A kernel timestamp: seconds and microseconds.
#[derive(Clone, Copy, Debug, PartialEq, Eq, Structural)]
pub struct TimeVal {
    pub tv_sec: i64,
    pub tv_usec: i64,
}

impl TimeVal {
    /// A well-formed timestamp: non-negative, with a normalized
    /// microsecond field, and small enough that microsecond arithmetic
    /// stays far from the `i64` limits.
    pub open spec fn wf(self) -> bool {
        &&& 0 <= self.tv_sec < 0x100_0000_0000
        &&& 0 <= self.tv_usec < 1_000_000
    }

    /// The timestamp as a total count of microseconds.
    pub open spec fn spec_micros(self) -> int {
        self.tv_sec * 1_000_000 + self.tv_usec
    }

    /// The timestamp as a total count of microseconds.
    pub fn micros(&self) -> (r: i64)
        requires
            self.wf(),
        ensures
            r == self.spec_micros(),
    {
        self.tv_sec * 1_000_000 + self.tv_usec
    }
}

/// The elapsed time, in microseconds, from `older` to `newer`.
pub fn timeval_diff(newer: &TimeVal, older: &TimeVal) -> (r: u64)
    requires
        newer.wf(),
        older.wf(),
        older.spec_micros() <= newer.spec_micros(),
    ensures
        r == newer.spec_micros() - older.spec_micros(),
{
    (newer.micros() - older.micros()) as u64
}

/// A raw input event: a timestamp, an event code, and a signed value.
/// For key events the value is 0 for release, 1 for press, 2 for repeat;
/// for axis events it is a signed magnitude.
#[derive(Clone, Copy, Debug, PartialEq, Eq, Structural)]
pub struct InputEvent {
    pub time: TimeVal,
    pub event_code: EventCode,
    pub value: i32,
}

/// A reference to a key or axis in a rule. For key codes the scale is
/// normalized to 1 and carries no meaning. For axis codes the sign of
/// `scale` is a direction filter (zero matches either direction) and its
/// magnitude is an integer scaling factor.
#[derive(Clone, Copy, Debug, PartialEq, Eq, Structural)]
pub struct KeyCodeWrapper {
    pub code: EventCode,
    pub scale: i32,
}

/// A remapping rule. `DualRole` substitutes the `hold` keys while its
/// input is held and synthesizes a tap of the `tap` keys on a quick
/// release. `Remap` substitutes the `output` references for the `input`
/// references once every input member is active.
#[derive(Clone, Debug)]
pub enum Mapping {
    DualRole { input: EventCode, hold: Vec<EventCode>, tap: Vec<EventCode> },
    Remap { input: Vec<KeyCodeWrapper>, output: Vec<KeyCodeWrapper> },
}

/// The configuration the engine is built from: the device to grab, an
/// optional physical-topology filter, the ordered rule list, and the
/// codes to privilege as modifiers (empty means the default set).
#[derive(Clone, Debug)]
pub struct MappingConfig {
    pub device_name: String,
    pub phys: Option<String>,
    pub mappings: Vec<Mapping>,
    pub modifiers: Vec<EventCode>,
}

/// An error in the configuration.
#[derive(Clone, Debug)]
pub enum ConfigError {
    /// The named token is not a valid key reference.
    InvalidKey(String),
    /// A key name parsed as a key but did not resolve within the key family.
    ImpossibleParseKey,
}

/// A parsed key reference string, before the name is resolved to a
/// numeric code: the event family read from the name's prefix, the name
/// itself as bytes, and the scale with its direction filter.
#[derive(Clone, Debug)]
pub struct ParsedKeyRef {
    pub family: EventType,
    pub name: Vec<u8>,
    pub scale: i32,
}

/// Whether a byte is an ASCII `+` or `-`.
pub open spec fn is_sign_byte(b: u8) -> bool {
    b == 43 || b == 45
}

/// The index of the last sign byte of `bytes`, or a negative value when
/// there is none.
pub open spec fn last_sign(bytes: Seq<u8>) -> int
    decreases bytes.len(),
{
    if bytes.len() == 0 {
        -1
    } else if is_sign_byte(bytes.last()) {
        bytes.len() - 1
    } else {
        last_sign(bytes.drop_last())
    }
}

/// The value of a non-empty sequence of ASCII digits, or nothing when a
/// byte is not a digit.
pub open spec fn digits_val(ds: Seq<u8>) -> Option<int>
    decreases ds.len(),
{
    if ds.len() == 0 {
        None
    } else if ds.len() == 1 {
        if 48 <= ds[0] <= 57 {
            Some(ds[0] - 48)
        } else {
            None
        }
    } else {
        match digits_val(ds.drop_last()) {
            Some(v) => if 48 <= ds.last() <= 57 {
                Some(v * 10 + (ds.last() - 48))
            } else {
                None
            },
            None => None,
        }
    }
}

/// The index of the first underscore of `bytes`, or a negative value
/// when there is none.
pub open spec fn first_underscore(bytes: Seq<u8>) -> int
    decreases bytes.len(),
{
    if bytes.len() == 0 {
        -1
    } else if bytes[0] == 95 {
        0
    } else {
        let r = first_underscore(bytes.drop_first());
        if r < 0 {
            -1
        } else {
            r + 1
        }
    }
}

/// The event family denoted by a name prefix. `BTN` names are key codes.
pub open spec fn spec_family_of_prefix(p: Seq<u8>) -> Option<EventType> {
    if p == seq![75u8, 69u8, 89u8] || p == seq![66u8, 84u8, 78u8] {
        Some(EventType::Key)
    } else if p == seq![82u8, 69u8, 76u8] {
        Some(EventType::Rel)
    } else if p == seq![65u8, 66u8, 83u8] {
        Some(EventType::Abs)
    } else if p == seq![77u8, 83u8, 67u8] {
        Some(EventType::Msc)
    } else if p == seq![83u8, 87u8] {
        Some(EventType::Sw)
    } else if p == seq![76u8, 69u8, 68u8] {
        Some(EventType::Led)
    } else if p == seq![83u8, 78u8, 68u8] {
        Some(EventType::Snd)
    } else if p == seq![82u8, 69u8, 80u8] {
        Some(EventType::Rep)
    } else if p == seq![70u8, 70u8] {
        Some(EventType::Ff)
    } else if p == seq![83u8, 89u8, 78u8] {
        Some(EventType::Syn)
    } else {
        None
    }
}

/// The scale denoted by the text after the name: zero when no sign is
/// present, the bare sign's unit when nothing follows it, and the signed
/// digit value otherwise — rejected when a digit is malformed or the
/// value does not fit an `i32`.
pub open spec fn spec_scale_of(bytes: Seq<u8>, ls: int) -> Option<int> {
    if ls < 0 {
        Some(0)
    } else if ls == bytes.len() - 1 {
        if bytes[ls] == 45 {
            Some(-1)
        } else {
            Some(1)
        }
    } else {
        match digits_val(bytes.subrange(ls + 1, bytes.len() as int)) {
            Some(v) => if bytes[ls] == 45 {
                if v <= 0x8000_0000 {
                    Some(-v)
                } else {
                    None
                }
            } else {
                if v <= 0x7fff_ffff {
                    Some(v)
                } else {
                    None
                }
            },
            None => None,
        }
    }
}

/// What a key reference string denotes: the family read from the name's
/// prefix, the name itself, and the scale — normalized to one for a key
/// name without an explicit scale. Nothing when the name has no
/// underscore, its prefix names no family, or the scale is malformed.
pub open spec fn spec_parse_key_ref(bytes: Seq<u8>) -> Option<(EventType, Seq<u8>, int)> {
    let ls = last_sign(bytes);
    let name = if ls >= 0 {
        bytes.subrange(0, ls)
    } else {
        bytes
    };
    match spec_scale_of(bytes, ls) {
        None => None,
        Some(sc0) => {
            let us = first_underscore(name);
            if us < 0 {
                None
            } else {
                match spec_family_of_prefix(name.subrange(0, us)) {
                    None => None,
                    Some(f) => Some(
                        (
                            f,
                            name,
                            if f == EventType::Key && sc0 == 0 {
                                1int
                            } else {
                                sc0
                            },
                        ),
                    ),
                }
            }
        },
    }
}

/// Parses a key reference string of the form `NAME[±[N]]`: an event code
/// name such as `KEY_A` or `REL_WHEEL`, an optional trailing direction
/// sign, and an optional scale magnitude after the sign. The name is
/// returned as written; resolving it to a numeric code within its family
/// is the device layer's task.
pub fn parse_key_ref(s: &str) -> (r: Result<ParsedKeyRef, ConfigError>)
    ensures
        match r {
            Ok(p) => spec_parse_key_ref(s.spec_bytes()) == Some((p.family, p.name@, p.scale as int)),
            Err(e) => spec_parse_key_ref(s.spec_bytes()) is None && (e matches ConfigError::InvalidKey(t) && t@ == s@),
        },
{
    let bytes = s.as_bytes();
    let ghost bs = s.spec_bytes();
    let n = bytes.len();
    let ls_found = find_last_sign(bytes);
    proof {
        lemma_last_sign_scan(bs, ls_found);
    }
    let ghost ls = last_sign(bs);
    // Compute the scale.
    let name_end: usize = match ls_found {
        Some(p) => p,
        None => n,
    };
    let scale: i32 = match ls_found {
        None => 0,
        Some(p) => {
            if p == n - 1 {
                if bytes[p] == 45 {
                    -1
                } else {
                    1
                }
            } else {
                // Parse the digits after the sign.
                let mut acc: u64 = 0;
                let mut too_big = false;
                let mut j: usize = p + 1;
                let mut bad = false;
                while j < n
                    invariant
                        bytes@ == bs,
                        n == bs.len(),
                        p + 1 <= j <= n,
                        p + 1 < n,
                        j == p + 1 ==> acc == 0 && !too_big && !bad,
                        !bad && j > p + 1 ==> digits_val(bs.subrange(p + 1, j as int)) is Some,
                        !bad && j > p + 1 && !too_big ==> digits_val(
                            bs.subrange(p + 1, j as int),
                        )->0 == acc as int,
                        !bad && too_big ==> j > p + 1 && digits_val(
                            bs.subrange(p + 1, j as int),
                        )->0 > 0x8000_0000,
                        !too_big ==> acc <= 0x8000_0000,
                        bad ==> digits_val(bs.subrange(p + 1, bs.len() as int)) is None,
                    decreases n - j,
                {
                    let b = bytes[j];
                    if !bad {
                        if b < 48 || b > 57 {
                            bad = true;
                            proof {
                                lemma_digits_bad(bs, p + 1, j as int);
                            }
                        } else {
                            proof {
                                assert(bs.subrange(p + 1, j + 1).drop_last() =~= bs.subrange(
                                    p + 1,
                                    j as int,
                                ));
                                assert(bs.subrange(p + 1, j + 1).last() == bs[j as int]);
                                if j > p + 1 {
                                    lemma_digits_nonneg(bs.subrange(p + 1, j as int));
                                }
                            }
                            if !too_big {
                                acc = acc * 10 + ((b - 48) as u64);
                                if acc > 0x8000_0000 {
                                    too_big = true;
                                }
                            }
                        }
                    }
                    j = j + 1;
                }
                proof {
                    assert(bs.subrange(p + 1, j as int) =~= bs.subrange(p + 1, bs.len() as int));
                }
                if bad || too_big || (bytes[p] != 45 && acc > 0x7fff_ffff) {
                    proof {
                        if !bad {
                            assert(spec_scale_of(bs, ls) is None);
                        }
                    }
                    return Err(ConfigError::InvalidKey(s.to_owned()));
                }
                if bytes[p] == 45 {
                    if acc == 0x8000_0000 {
                        -2147483648
                    } else {
                        -((acc as i32))
                    }
                } else {
                    acc as i32
                }
            }
        },
    };
    // Split off the name and find its prefix.
    let mut name: Vec<u8> = Vec::new();
    let mut k: usize = 0;
    while k < name_end
        invariant
            bytes@ == bs,
            n == bs.len(),
            name_end <= n,
            0 <= k <= name_end,
            name@ == bs.subrange(0, k as int),
        decreases name_end - k,
    {
        name.push(bytes[k]);
        proof {
            assert(name@ =~= bs.subrange(0, k + 1));
        }
        k = k + 1;
    }
    let ghost nm: Seq<u8> = if ls >= 0 {
        bs.subrange(0, ls)
    } else {
        bs
    };
    proof {
        assert(name@ =~= nm);
    }
    let us_found = find_first_underscore(&name);
    proof {
        lemma_first_underscore_scan(nm, us_found);
    }
    let us = match us_found {
        Some(u) => u,
        None => {
            return Err(ConfigError::InvalidKey(s.to_owned()));
        },
    };
    let family: EventType = {
        let p0 = if us >= 1 {
            name[0]
        } else {
            0
        };
        let p1 = if us >= 2 {
            name[1]
        } else {
            0
        };
        let p2 = if us >= 3 {
            name[2]
        } else {
            0
        };
        let fam: Option<EventType> = if us == 3 && p0 == 75 && p1 == 69 && p2 == 89 {
            Some(EventType::Key)
        } else if us == 3 && p0 == 66 && p1 == 84 && p2 == 78 {
            Some(EventType::Key)
        } else if us == 3 && p0 == 82 && p1 == 69 && p2 == 76 {
            Some(EventType::Rel)
        } else if us == 3 && p0 == 65 && p1 == 66 && p2 == 83 {
            Some(EventType::Abs)
        } else if us == 3 && p0 == 77 && p1 == 83 && p2 == 67 {
            Some(EventType::Msc)
        } else if us == 2 && p0 == 83 && p1 == 87 {
            Some(EventType::Sw)
        } else if us == 3 && p0 == 76 && p1 == 69 && p2 == 68 {
            Some(EventType::Led)
        } else if us == 3 && p0 == 83 && p1 == 78 && p2 == 68 {
            Some(EventType::Snd)
        } else if us == 3 && p0 == 82 && p1 == 69 && p2 == 80 {
            Some(EventType::Rep)
        } else if us == 2 && p0 == 70 && p1 == 70 {
            Some(EventType::Ff)
        } else if us == 3 && p0 == 83 && p1 == 89 && p2 == 78 {
            Some(EventType::Syn)
        } else {
            None
        };
        proof {
            let pr = nm.subrange(0, us as int);
            assert(pr.len() == us as int);
            if us == 3 {
                assert(pr =~= seq![nm[0], nm[1], nm[2]]);
            }
            if us == 2 {
                assert(pr =~= seq![nm[0], nm[1]]);
            }
            assert(fam == spec_family_of_prefix(pr)) by {
                if us == 3 {
                    assert(pr == seq![nm[0], nm[1], nm[2]]);
                } else if us == 2 {
                    assert(pr == seq![nm[0], nm[1]]);
                } else {
                    assert(pr.len() != 3 && pr.len() != 2);
                    assert(spec_family_of_prefix(pr) is None) by {
                        assert(pr != seq![75u8, 69u8, 89u8] && pr != seq![66u8, 84u8, 78u8]
                            && pr != seq![82u8, 69u8, 76u8] && pr != seq![65u8, 66u8, 83u8]
                            && pr != seq![77u8, 83u8, 67u8] && pr != seq![83u8, 87u8] && pr
                            != seq![76u8, 69u8, 68u8] && pr != seq![83u8, 78u8, 68u8] && pr
                            != seq![82u8, 69u8, 80u8] && pr != seq![70u8, 70u8] && pr != seq![
                            83u8,
                            89u8,
                            78u8,
                        ]);
                    }
                }
            }
        }
        match fam {
            Some(f) => f,
            None => {
                return Err(ConfigError::InvalidKey(s.to_owned()));
            },
        }
    };
    let scale = if family == EventType::Key && scale == 0 {
        1
    } else {
        scale
    };
    Ok(ParsedKeyRef { family, name, scale })
}

/// The index of the last `+` or `-` byte of `bytes`, if any.
fn find_last_sign(bytes: &[u8]) -> (r: Option<usize>)
    ensures
        match r {
            Some(p) => p < bytes@.len() && is_sign_byte(bytes@[p as int]) && forall|k: int|
                p < k < bytes@.len() ==> !is_sign_byte(#[trigger] bytes@[k]),
            None => forall|k: int| 0 <= k < bytes@.len() ==> !is_sign_byte(#[trigger] bytes@[k]),
        },
{
    let mut i: usize = bytes.len();
    while i > 0
        invariant
            0 <= i <= bytes@.len(),
            forall|k: int| i <= k < bytes@.len() ==> !is_sign_byte(#[trigger] bytes@[k]),
        decreases i,
    {
        if bytes[i - 1] == 43 || bytes[i - 1] == 45 {
            return Some(i - 1);
        }
        i = i - 1;
    }
    None
}

/// The index of the first underscore of `v`, if any.
fn find_first_underscore(v: &Vec<u8>) -> (r: Option<usize>)
    ensures
        match r {
            Some(u) => u < v@.len() && v@[u as int] == 95 && forall|t: int|
                0 <= t < u ==> v@[t] != 95,
            None => forall|t: int| 0 <= t < v@.len() ==> v@[t] != 95,
        },
{
    let mut k: usize = 0;
    while k < v.len()
        invariant
            0 <= k <= v@.len(),
            forall|t: int| 0 <= t < k ==> v@[t] != 95,
        decreases v@.len() - k,
    {
        if v[k] == 95 {
            return Some(k);
        }
        k = k + 1;
    }
    None
}

proof fn lemma_last_sign_scan(bs: Seq<u8>, found: Option<usize>)
    requires
        match found {
            Some(p) => p < bs.len() && is_sign_byte(bs[p as int]) && forall|k: int|
                p < k < bs.len() ==> !is_sign_byte(#[trigger] bs[k]),
            None => forall|k: int| 0 <= k < bs.len() ==> !is_sign_byte(#[trigger] bs[k]),
        },
    ensures
        match found {
            Some(p) => last_sign(bs) == p as int,
            None => last_sign(bs) < 0,
        },
    decreases bs.len(),
{
    match found {
        Some(p) => {
            if p == bs.len() - 1 {
            } else {
                lemma_last_sign_scan(bs.drop_last(), Some(p));
            }
        },
        None => {
            if bs.len() > 0 {
                lemma_last_sign_scan(bs.drop_last(), None);
            }
        },
    }
}

proof fn lemma_first_underscore_scan(nm: Seq<u8>, found: Option<usize>)
    requires
        match found {
            Some(u) => u < nm.len() && nm[u as int] == 95 && forall|t: int|
                0 <= t < u ==> nm[t] != 95,
            None => forall|t: int| 0 <= t < nm.len() ==> nm[t] != 95,
        },
    ensures
        match found {
            Some(u) => first_underscore(nm) == u as int,
            None => first_underscore(nm) < 0,
        },
    decreases nm.len(),
{
    match found {
        Some(u) => {
            if u == 0 {
            } else {
                lemma_first_underscore_scan(nm.drop_first(), Some((u - 1) as usize));
            }
        },
        None => {
            if nm.len() > 0 {
                lemma_first_underscore_scan(nm.drop_first(), None);
            }
        },
    }
}

proof fn lemma_digits_bad(bs: Seq<u8>, start: int, at: int)
    requires
        0 <= start <= at < bs.len(),
        !(48 <= bs[at] <= 57),
    ensures
        forall|e: int| at < e <= bs.len() ==> digits_val(#[trigger] bs.subrange(start, e)) is None,
    decreases bs.len(),
{
    assert forall|e: int| at < e <= bs.len() implies digits_val(
        #[trigger] bs.subrange(start, e),
    ) is None by {
        lemma_digits_bad_one(bs, start, at, e);
    }
}

proof fn lemma_digits_bad_one(bs: Seq<u8>, start: int, at: int, e: int)
    requires
        0 <= start <= at < bs.len(),
        !(48 <= bs[at] <= 57),
        at < e <= bs.len(),
    ensures
        digits_val(bs.subrange(start, e)) is None,
    decreases e - at,
{
    let ds = bs.subrange(start, e);
    if e == at + 1 {
        if ds.len() == 1 {
        } else {
            assert(ds.last() == bs[at]);
        }
    } else {
        lemma_digits_bad_one(bs, start, at, e - 1);
        assert(ds.drop_last() =~= bs.subrange(start, e - 1));
        assert(ds.len() >= 2);
    }
}

proof fn lemma_digits_nonneg(ds: Seq<u8>)
    requires
        digits_val(ds) is Some,
    ensures
        digits_val(ds)->0 >= 0,
    decreases ds.len(),
{
    if ds.len() > 1 {
        lemma_digits_nonneg(ds.drop_last());
    }
}

} // verus!
