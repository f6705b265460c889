//! Device descriptions and the pure part of device selection: which of the
//! enumerated devices a configuration names.

use vstd::prelude::*;
use vstd::string::StrSliceExecFns;

verus! {

/// What identifies one input device: its reported name, its device node
/// path, and its physical-location string.
#[derive(Debug, Clone)]
pub struct DeviceInfo {
    pub name: String,
    pub path: String,
    pub phys: String,
}

/// Two device descriptions with the same text in every field.
pub open spec fn dev_eq(a: DeviceInfo, b: DeviceInfo) -> bool {
    a.name@ == b.name@ && a.path@ == b.path@ && a.phys@ == b.phys@
}

/// Why no device could be selected.
#[derive(Debug, Clone, PartialEq, Eq)]
pub enum DeviceError {
    /// A physical location was asked for and no device has it.
    PhysNotFound,
    /// No device carries the requested name.
    NameNotFound,
}

/// The index of the first device whose physical-location string matches.
pub open spec fn find_phys(devs: Seq<DeviceInfo>, phys: Seq<char>) -> Option<int>
    decreases devs.len(),
{
    if devs.len() == 0 {
        None
    } else if devs[0].phys@ == phys {
        Some(0int)
    } else {
        match find_phys(devs.drop_first(), phys) {
            Some(i) => Some(i + 1),
            None => None,
        }
    }
}

/// A field-by-field copy of one device description.
fn clone_device(d: &DeviceInfo) -> (r: DeviceInfo)
    ensures
        dev_eq(r, *d),
{
    DeviceInfo { name: d.name.clone(), path: d.path.clone(), phys: d.phys.clone() }
}

impl DeviceInfo {
    /// Selects the devices a configuration names: with a physical location,
    /// the first device at that location alone; otherwise every device with
    /// the given name, in enumeration order.
    pub fn with_name(name: &str, phys: Option<&str>, devices: Vec<DeviceInfo>) -> (r: Result<
    Vec<DeviceInfo>,
    DeviceError,
>)
    ensures
        match phys {
            Some(p) => match find_phys(devices@, p@) {
                Some(i) => r matches Ok(v) && v@.len() == 1 && dev_eq(v@[0], devices@[i]),
                None => r == Err::<Vec<DeviceInfo>, DeviceError>(DeviceError::PhysNotFound),
            },
            None => {
                let hits = devices@.filter(|d: DeviceInfo| d.name@ == name@);
                if hits.len() == 0 {
                    r == Err::<Vec<DeviceInfo>, DeviceError>(DeviceError::NameNotFound)
                } else {
                    r matches Ok(v) && v@.len() == hits.len() && (forall|j: int|
                        0 <= j < v@.len() ==> dev_eq(#[trigger] v@[j], hits[j]))
                }
            },
        },
{
    match phys {
        Some(p) => {
            let pstr = p.to_owned();
            let mut i: usize = 0;
            proof {
                assert(devices@.skip(0) =~= devices@);
            }
            while i < devices.len()
                invariant
                    phys == Some(p),
                    0 <= i <= devices@.len(),
                    pstr@ == p@,
                    find_phys(devices@, p@) == (match find_phys(devices@.skip(i as int), p@) {
                        Some(idx) => Some(idx + i as int),
                        None => None,
                    }),
                decreases devices@.len() - i,
            {
                proof {
                    assert(devices@.skip(i as int)[0] == devices@[i as int]);
                }
                if devices[i].phys == pstr {
                    let mut v: Vec<DeviceInfo> = Vec::new();
                    v.push(clone_device(&devices[i]));
                    proof {
                        assert(find_phys(devices@.skip(i as int), p@) == Some(0int));
                        assert(find_phys(devices@, p@) == Some(i as int));
                        assert(v@.len() == 1);
                        assert(dev_eq(v@[0], devices@[i as int]));
                    }
                    return Ok(v);
                }
                proof {
                    assert(devices@.skip(i as int).drop_first() =~= devices@.skip(i + 1));
                }
                i += 1;
            }
            proof {
                assert(devices@.skip(i as int) =~= Seq::<DeviceInfo>::empty());
            }
            Err(DeviceError::PhysNotFound)
        },
        None => {
            let nstr = name.to_owned();
            let mut v: Vec<DeviceInfo> = Vec::new();
            let mut i: usize = 0;
            while i < devices.len()
                invariant
                    0 <= i <= devices@.len(),
                    nstr@ == name@,
                    v@.len() == devices@.take(i as int).filter(
                        |d: DeviceInfo| d.name@ == name@,
                    ).len(),
                    forall|j: int|
                        0 <= j < v@.len() ==> dev_eq(
                            #[trigger] v@[j],
                            devices@.take(i as int).filter(|d: DeviceInfo| d.name@ == name@)[j],
                        ),
                decreases devices@.len() - i,
            {
                let ghost pre = devices@.take(i as int).filter(
                    |d: DeviceInfo| d.name@ == name@,
                );
                let ghost post = devices@.take(i + 1).filter(|d: DeviceInfo| d.name@ == name@);
                proof {
                    assert(devices@.take(i + 1).drop_last() =~= devices@.take(i as int));
                    assert(devices@.take(i + 1).last() == devices@[i as int]);
                    reveal_with_fuel(Seq::filter, 2);
                    if devices@[i as int].name@ == name@ {
                        assert(post == pre.push(devices@[i as int]));
                    } else {
                        assert(post == pre);
                    }
                }
                if devices[i].name == nstr {
                    let ghost v0 = v@;
                    v.push(clone_device(&devices[i]));
                    proof {
                        assert forall|j: int| 0 <= j < v@.len() implies dev_eq(
                            #[trigger] v@[j],
                            post[j],
                        ) by {
                            if j < v0.len() {
                                assert(v@[j] == v0[j]);
                                assert(post[j] == pre[j]);
                            } else {
                                assert(post[j] == devices@[i as int]);
                            }
                        }
                    }
                }
                i += 1;
            }
            proof {
                assert(devices@.take(devices@.len() as int) =~= devices@);
            }
            if v.len() == 0 {
                Err(DeviceError::NameNotFound)
            } else {
                Ok(v)
            }
        },
        }
    }
}

/// A decimal digit.
pub open spec fn is_digit(c: char) -> bool {
    '0' <= c && c <= '9'
}

pub open spec fn all_digits(s: Seq<char>) -> bool {
    forall|i: int| 0 <= i < s.len() ==> is_digit(#[trigger] s[i])
}

/// The number the digit string denotes.
pub open spec fn digits_value(s: Seq<char>) -> int
    decreases s.len(),
{
    if s.len() == 0 {
        0
    } else {
        digits_value(s.drop_last()) * 10 + (s.last() as int - '0' as int)
    }
}

/// What `str::parse::<u32>` followed by `unwrap_or(0)` gives: the value of
/// the digits (one leading `+` allowed) when they fit in 32 bits, else 0.
pub open spec fn parse_u32_or_zero(s: Seq<char>) -> int {
    let ds = if s.len() > 0 && s[0] == '+' {
        s.drop_first()
    } else {
        s
    };
    if ds.len() > 0 && all_digits(ds) && digits_value(ds) <= u32::MAX {
        digits_value(ds)
    } else {
        0
    }
}

/// The sequence spelling `event`.
pub open spec fn event_word() -> Seq<char> {
    seq!['e', 'v', 'e', 'n', 't']
}

/// The greatest position at most `from` where `event` occurs in `s`.
pub open spec fn last_event_pos(s: Seq<char>, from: int) -> Option<int>
    decreases (if from < 0 {
        0int
    } else {
        from + 1
    }),
{
    if from < 0 {
        None
    } else if from + 5 <= s.len() && s.subrange(from, from + 5) == event_word() {
        Some(from)
    } else {
        last_event_pos(s, from - 1)
    }
}

/// The device unit number a path like `/dev/input/event7` carries: the
/// number after the last `event`, or 0 when there is none or it does not
/// read as a 32-bit number.
pub open spec fn event_number_of(s: Seq<char>) -> int {
    match last_event_pos(s, s.len() - 5) {
        Some(i) => parse_u32_or_zero(s.subrange(i + 5, s.len() as int)),
        None => 0,
    }
}

proof fn lemma_digits_nonneg(s: Seq<char>)
    requires
        all_digits(s),
    ensures
        digits_value(s) >= 0,
    decreases s.len(),
{
    if s.len() > 0 {
        assert(all_digits(s.drop_last())) by {
            assert forall|i: int| 0 <= i < s.drop_last().len() implies is_digit(
                #[trigger] s.drop_last()[i],
            ) by {
                assert(s.drop_last()[i] == s[i]);
            }
        }
        lemma_digits_nonneg(s.drop_last());
        assert(is_digit(s.last())) by {
            assert(s[s.len() - 1] == s.last());
        }
        assert(digits_value(s.drop_last()) * 10 >= 0) by (nonlinear_arith)
            requires
                digits_value(s.drop_last()) >= 0,
        ;
    }
}

/// A prefix of a digit string never denotes more than the whole string.
proof fn lemma_digits_value_prefix(s: Seq<char>, j: int)
    requires
        0 <= j <= s.len(),
        all_digits(s),
    ensures
        digits_value(s.take(j)) <= digits_value(s),
    decreases s.len() - j,
{
    if j == s.len() {
        assert(s.take(j) =~= s);
    } else {
        lemma_digits_value_prefix(s, j + 1);
        let a = s.take(j);
        let b = s.take(j + 1);
        assert(b.drop_last() =~= a);
        assert(b.last() == s[j]);
        assert(all_digits(a)) by {
            assert forall|i: int| 0 <= i < a.len() implies is_digit(#[trigger] a[i]) by {
                assert(a[i] == s[i]);
            }
        }
        lemma_digits_nonneg(a);
        assert(is_digit(s[j]));
        assert(digits_value(a) * 10 + (s[j] as int - '0' as int) >= digits_value(a)) by (
        nonlinear_arith)
            requires
                digits_value(a) >= 0,
                s[j] as int - '0' as int >= 0,
        ;
    }
}

/// Reads the digits of `s` from `start` on as a 32-bit number, with the
/// `unwrap_or(0)` behaviour of a failed parse.
#[verifier::rlimit(100)]
fn parse_number(s: &str, start: usize, n: usize) -> (r: u32)
    requires
        n == s@.len(),
        start <= n,
    ensures
        r as int == parse_u32_or_zero(s@.subrange(start as int, n as int)),
{
    let ghost whole = s@.subrange(start as int, n as int);
    let mut p: usize = start;
    if p < n && s.get_char(p) == '+' {
        proof {
            assert(whole[0] == s@[start as int]);
        }
        p += 1;
        proof {
            assert(whole.drop_first() =~= s@.subrange(p as int, n as int));
        }
    } else {
        proof {
            if whole.len() > 0 {
                assert(whole[0] == s@[start as int]);
            }
            assert(whole =~= s@.subrange(p as int, n as int));
        }
    }
    let ghost ds = s@.subrange(p as int, n as int);
    let ghost goal = (if ds.len() > 0 && all_digits(ds) && digits_value(ds) <= u32::MAX {
        digits_value(ds)
    } else {
        0int
    });
    proof {
        assert(parse_u32_or_zero(whole) == goal);
    }
    if p == n {
        return 0;
    }
    let mut acc: u32 = 0;
    let mut j: usize = p;
    while j < n
        invariant
            p <= j <= n,
            p < n,
            n == s@.len(),
            ds == s@.subrange(p as int, n as int),
            start <= n,
            whole == s@.subrange(start as int, n as int),
            parse_u32_or_zero(whole) == goal,
            goal == (if ds.len() > 0 && all_digits(ds) && digits_value(ds) <= u32::MAX {
                digits_value(ds)
            } else {
                0int
            }),
            all_digits(ds.take(j - p)),
            acc as int == digits_value(ds.take(j - p)),
        decreases n - j,
    {
        let c = s.get_char(j);
        proof {
            assert(ds[j - p] == s@[j as int]);
        }
        if !(c >= '0' && c <= '9') {
            proof {
                assert(!is_digit(ds[j - p]));
                assert(!all_digits(ds));
            }
            return 0;
        }
        let d = (c as u32) - ('0' as u32);
        proof {
            assert(ds.take(j - p + 1).drop_last() =~= ds.take(j - p));
            assert(ds.take(j - p + 1).last() == ds[j - p]);
            assert(d as int == ds[j - p] as int - '0' as int);
        }
        if acc > (u32::MAX - d) / 10 {
            proof {
                assert(acc as int * 10 + d as int > u32::MAX) by (nonlinear_arith)
                    requires
                        acc as int > ((u32::MAX - d) as int) / 10,
                        0 <= d as int <= 9,
                        acc as int >= 0,
                ;
                assert(digits_value(ds.take(j - p + 1)) > u32::MAX);
                if all_digits(ds) {
                    lemma_digits_value_prefix(ds, j - p + 1);
                }
            }
            return 0;
        }
        acc = acc * 10 + d;
        proof {
            assert(all_digits(ds.take(j - p + 1))) by {
                assert forall|i: int| 0 <= i < j - p + 1 implies is_digit(
                    #[trigger] ds.take(j - p + 1)[i],
                ) by {
                    if i < j - p {
                        assert(ds.take(j - p + 1)[i] == ds.take(j - p)[i]);
                    } else {
                        assert(ds.take(j - p + 1)[i] == ds[j - p]);
                    }
                }
            }
        }
        j += 1;
    }
    proof {
        assert(ds.take(n - p) =~= ds);
        lemma_digits_nonneg(ds);
    }
    acc
}

/// Whether `event` occurs in `s` at position `at`.
fn matches_event_at(s: &str, at: usize, n: usize) -> (r: bool)
    requires
        n == s@.len(),
        at + 5 <= n,
    ensures
        r == (s@.subrange(at as int, at + 5) == event_word()),
{
    let r = s.get_char(at) == 'e' && s.get_char(at + 1) == 'v' && s.get_char(at + 2) == 'e'
        && s.get_char(at + 3) == 'n' && s.get_char(at + 4) == 't';
    proof {
        let sub = s@.subrange(at as int, at + 5);
        assert(sub[0] == s@[at as int] && sub[1] == s@[at + 1] && sub[2] == s@[at + 2] && sub[3]
            == s@[at + 3] && sub[4] == s@[at + 4]);
        if r {
            assert(sub =~= event_word());
        } else {
            if sub == event_word() {
                assert(sub[0] == 'e' && sub[1] == 'v' && sub[2] == 'e' && sub[3] == 'n' && sub[4]
                    == 't');
                assert(false);
            }
        }
    }
    r
}

/// The device unit number in an event-device path: the digits after the
/// last `event`, or 0 if there are none that read as a 32-bit number.
pub fn event_number_from_path(path: &str) -> (r: u32)
    ensures
        r as int == event_number_of(path@),
{
    let n = path.unicode_len();
    if n < 5 {
        proof {
            lemma_no_event_before(path@, path@.len() - 5);
        }
        return 0;
    }
    let mut i: usize = n - 5;
    loop
        invariant
            n == path@.len(),
            n >= 5,
            0 <= i <= n - 5,
            last_event_pos(path@, n - 5) == last_event_pos(path@, i as int),
        decreases i,
    {
        if matches_event_at(path, i, n) {
            proof {
                assert(last_event_pos(path@, i as int) == Some(i as int));
            }
            return parse_number(path, i + 5, n);
        }
        if i == 0 {
            proof {
                assert(last_event_pos(path@, 0) == last_event_pos(path@, -1));
            }
            return 0;
        }
        proof {
            assert(last_event_pos(path@, i as int) == last_event_pos(path@, i - 1));
        }
        i -= 1;
    }
}

/// Below position 0 there is no occurrence.
proof fn lemma_no_event_before(s: Seq<char>, from: int)
    requires
        from < 0,
    ensures
        last_event_pos(s, from) is None,
{
}

} // verus!
