//! Mapping rules, their compilation from key-table lookups, and the table
//! well-formedness that the engine relies on.

use vstd::prelude::*;
use crate::keys::KeyCode;

verus! {

/// One remapping rule.
///
/// `DualRole`: the physical key `input` produces the `hold` keys (held as
/// modifiers) when classified as a hold, and the `tap` keys (each a full
/// press/release cycle, in list order) when classified as a tap.
///
/// `Remap`: while every key of `input` is physically held, the `output`
/// keys are emitted in its place.
#[derive(Debug, Clone, Eq, PartialEq)]
pub enum Mapping {
    DualRole { input: KeyCode, hold: Vec<KeyCode>, tap: Vec<KeyCode> },
    Remap { input: Vec<KeyCode>, output: Vec<KeyCode> },
}

impl Mapping {
    pub open spec fn is_dual(self) -> bool {
        self is DualRole
    }

    pub open spec fn dual_input(self) -> KeyCode
        recommends
            self is DualRole,
    {
        match self {
            Mapping::DualRole { input, .. } => input,
            Mapping::Remap { .. } => KeyCode(0),
        }
    }

    pub open spec fn hold_keys(self) -> Seq<KeyCode> {
        match self {
            Mapping::DualRole { hold, .. } => hold@,
            Mapping::Remap { .. } => Seq::empty(),
        }
    }

    pub open spec fn tap_keys(self) -> Seq<KeyCode> {
        match self {
            Mapping::DualRole { tap, .. } => tap@,
            Mapping::Remap { .. } => Seq::empty(),
        }
    }

    pub open spec fn remap_input(self) -> Seq<KeyCode> {
        match self {
            Mapping::DualRole { .. } => Seq::empty(),
            Mapping::Remap { input, .. } => input@,
        }
    }

    pub open spec fn remap_output(self) -> Seq<KeyCode> {
        match self {
            Mapping::DualRole { .. } => Seq::empty(),
            Mapping::Remap { output, .. } => output@,
        }
    }
}

/// A whole loaded configuration: the device it names, an optional
/// physical location to disambiguate, and the rules in file order.
#[derive(Debug, Clone)]
pub struct MappingConfig {
    pub device_name: String,
    pub phys: Option<String>,
    pub mappings: Vec<Mapping>,
}

/// `k` is the input key of some dual-role rule of the table.
pub open spec fn is_dual_input(ms: Seq<Mapping>, k: KeyCode) -> bool {
    exists|i: int| 0 <= i < ms.len() && (#[trigger] ms[i]).is_dual() && ms[i].dual_input() == k
}

/// `k` is a member of some chord-remap rule's input set.
pub open spec fn in_some_remap_input(ms: Seq<Mapping>, k: KeyCode) -> bool {
    exists|i: int| 0 <= i < ms.len() && (#[trigger] ms[i]).remap_input().contains(k)
}

/// `k` is a member of some chord-remap rule's output set.
pub open spec fn in_some_remap_output(ms: Seq<Mapping>, k: KeyCode) -> bool {
    exists|i: int| 0 <= i < ms.len() && (#[trigger] ms[i]).remap_output().contains(k)
}

/// `k` is a member of some dual-role rule's hold set.
pub open spec fn in_some_hold(ms: Seq<Mapping>, k: KeyCode) -> bool {
    exists|i: int| 0 <= i < ms.len() && (#[trigger] ms[i]).hold_keys().contains(k)
}

/// `k` is a member of some dual-role rule's tap sequence.
pub open spec fn in_some_tap(ms: Seq<Mapping>, k: KeyCode) -> bool {
    exists|i: int| 0 <= i < ms.len() && (#[trigger] ms[i]).tap_keys().contains(k)
}

/// The keys some rule of the table can emit: chord outputs, hold sets and
/// tap sequences.
pub open spec fn rule_output_key(ms: Seq<Mapping>, k: KeyCode) -> bool {
    in_some_remap_output(ms, k) || in_some_hold(ms, k) || in_some_tap(ms, k)
}

/// `k` takes part in no rule's inputs or chord outputs: the engine passes
/// it through untouched.
pub open spec fn plain_key(ms: Seq<Mapping>, k: KeyCode) -> bool {
    &&& !is_dual_input(ms, k)
    &&& !in_some_remap_input(ms, k)
    &&& !in_some_remap_output(ms, k)
}

/// Every key of `a` occurs in `b`.
pub open spec fn seq_subset(a: Seq<KeyCode>, b: Seq<KeyCode>) -> bool {
    forall|j: int| 0 <= j < a.len() ==> b.contains(#[trigger] a[j])
}

/// The well-formedness the engine asks of a compiled table:
/// - at most one dual-role rule claims a given input key;
/// - chord inputs are nonempty, and no two chords share an input set;
/// - a dual-role input key takes part in no chord, no hold set and no tap
///   sequence, so that it is never itself emitted.
pub open spec fn table_wf(ms: Seq<Mapping>) -> bool {
    &&& (forall|i: int, j: int|
        0 <= i < j < ms.len() && (#[trigger] ms[i]).is_dual() && (#[trigger] ms[j]).is_dual()
            ==> ms[i].dual_input() != ms[j].dual_input())
    &&& (forall|i: int|
        0 <= i < ms.len() && (#[trigger] ms[i]) is Remap ==> ms[i].remap_input().len() > 0)
    &&& (forall|i: int, j: int|
        0 <= i < j < ms.len() && (#[trigger] ms[i]) is Remap && (#[trigger] ms[j]) is Remap ==> !(
        seq_subset(ms[i].remap_input(), ms[j].remap_input()) && seq_subset(
            ms[j].remap_input(),
            ms[i].remap_input(),
        )))
    &&& (forall|i: int, j: int|
        0 <= i < ms.len() && 0 <= j < ms.len() && (#[trigger] ms[i]).is_dual() ==> !(
        #[trigger] ms[j]).remap_input().contains(ms[i].dual_input())
            && !ms[j].remap_output().contains(ms[i].dual_input()) && !ms[j].hold_keys().contains(
            ms[i].dual_input(),
        ) && !ms[j].tap_keys().contains(ms[i].dual_input()))
}

/// In a well-formed table a dual-role input key stands apart from every
/// chord and every hold set.
pub proof fn lemma_dual_not_in_rules(ms: Seq<Mapping>, k: KeyCode)
    requires
        table_wf(ms),
        is_dual_input(ms, k),
    ensures
        !in_some_remap_input(ms, k),
        !in_some_remap_output(ms, k),
        !in_some_hold(ms, k),
        !in_some_tap(ms, k),
{
    let i = choose|i: int| 0 <= i < ms.len() && (#[trigger] ms[i]).is_dual() && ms[i].dual_input()
        == k;
    assert forall|j: int| 0 <= j < ms.len() implies !(#[trigger] ms[j]).remap_input().contains(k)
        && !ms[j].remap_output().contains(k) && !ms[j].hold_keys().contains(k) && !ms[
        j
    ].tap_keys().contains(k) by {
        assert(ms[i].is_dual());
    }
}

/// A configuration error found while turning key names into a rule.
#[derive(Debug, Clone, PartialEq, Eq)]
pub enum ConfigError {
    /// The name is not a known `KEY_*` token.
    InvalidKey(String),
    /// The name parsed, but not into a key event code.
    ImpossibleParseKey,
}

/// What the key-name table of the evdev bindings says about one name.
/// The lookup itself is device I/O free but lives outside the library;
/// callers hand its answer in here.
#[derive(Clone, Copy, PartialEq, Eq, Structural, Debug)]
pub enum KeyLookup {
    /// A `KEY_*` token with this code.
    Key(u16),
    /// A known event name, but not of the key type.
    NonKey,
    /// Not a known event name.
    Unknown,
}

/// Turns one key-table answer into a key code, or into the configuration
/// error reported for the given name.
pub fn key_of_lookup(l: KeyLookup, name: &str) -> (r: Result<KeyCode, ConfigError>)
    ensures
        match l {
            KeyLookup::Key(c) => r == Ok::<KeyCode, ConfigError>(KeyCode(c)),
            KeyLookup::NonKey => r == Err::<KeyCode, ConfigError>(ConfigError::ImpossibleParseKey),
            KeyLookup::Unknown => (r matches Err(e) && e matches ConfigError::InvalidKey(s)
                && s@ == name@),
        },
{
    match l {
        KeyLookup::Key(c) => Ok(KeyCode(c)),
        KeyLookup::NonKey => Err(ConfigError::ImpossibleParseKey),
        KeyLookup::Unknown => Err(ConfigError::InvalidKey(name.to_owned())),
    }
}

/// Turns a list of key-table answers into key codes: the first failed
/// lookup wins, exactly as resolving the names one by one would fail.
pub fn keys_of_lookups(ls: &Vec<KeyLookup>, names: &Vec<String>) -> (r: Result<
    Vec<KeyCode>,
    ConfigError,
>)
    requires
        ls@.len() == names@.len(),
    ensures
        match r {
            Ok(codes) => {
                &&& codes@.len() == ls@.len()
                &&& forall|i: int|
                    0 <= i < ls@.len() ==> ((#[trigger] ls@[i]) matches KeyLookup::Key(c)
                        && codes@[i] == KeyCode(c))
            },
            Err(e) => exists|i: int|
                0 <= i < ls@.len() && !((#[trigger] ls@[i]) is Key) && (forall|j: int|
                    0 <= j < i ==> (#[trigger] ls@[j]) is Key) && (match ls@[i] {
                    KeyLookup::Key(_) => false,
                    KeyLookup::NonKey => e == ConfigError::ImpossibleParseKey,
                    KeyLookup::Unknown => e matches ConfigError::InvalidKey(s) && s@ == names@[i]@,
                }),
        },
{
    let mut codes: Vec<KeyCode> = Vec::new();
    let mut i: usize = 0;
    while i < ls.len()
        invariant
            ls@.len() == names@.len(),
            0 <= i <= ls@.len(),
            codes@.len() == i,
            forall|j: int|
                0 <= j < i ==> ((#[trigger] ls@[j]) matches KeyLookup::Key(c) && codes@[j]
                    == KeyCode(c)),
        decreases ls@.len() - i,
    {
        match key_of_lookup(ls[i], names[i].as_str()) {
            Ok(c) => codes.push(c),
            Err(e) => {
                return Err(e);
            },
        }
        i += 1;
    }
    Ok(codes)
}

} // verus!
