//! Key codes, key events, and the specification vocabulary for output
//! event batches.

use vstd::prelude::*;

verus! {

/// An evdev `KEY_*` code, held as its numeric value.
#[derive(Clone, Copy, PartialEq, Eq, Structural, Debug, Hash)]
pub struct KeyCode(pub u16);

/// The value carried by a key event: pressed, released, or autorepeat.
#[derive(Clone, Copy, PartialEq, Eq, Structural, Debug)]
pub enum KeyState {
    Press,
    Release,
    Repeat,
}

/// A timestamped key event from the physical device.  Times are in
/// microseconds since an arbitrary epoch.
#[derive(Clone, Copy, PartialEq, Eq, Structural, Debug)]
pub struct Event {
    pub time: u64,
    pub code: KeyCode,
    pub state: KeyState,
}

/// One element of the synthesized output stream: either a key event for the
/// virtual device or a `SYN_REPORT` frame delimiter.
#[derive(Clone, Copy, PartialEq, Eq, Structural, Debug)]
pub enum OutputEvent {
    Key { time: u64, code: KeyCode, state: KeyState },
    Syn { time: u64 },
}

/// What drives one transition of the engine: an input event or the
/// expiration of the hold timer.
#[derive(Clone, Copy, PartialEq, Eq, Structural, Debug)]
pub enum Stimulus {
    Key(Event),
    Timer { time: u64 },
}

impl OutputEvent {
    /// True for a key event of the given code and state.
    pub open spec fn is_key(self, k: KeyCode, st: KeyState) -> bool {
        match self {
            OutputEvent::Key { code, state, .. } => code == k && state == st,
            OutputEvent::Syn { .. } => false,
        }
    }

    pub open spec fn is_syn(self) -> bool {
        self is Syn
    }
}

/// How many events of the given code and state a batch holds.
pub open spec fn count_in(s: Seq<OutputEvent>, k: KeyCode, st: KeyState) -> int
    decreases s.len(),
{
    if s.len() == 0 {
        0
    } else {
        count_in(s.drop_last(), k, st) + if s.last().is_key(k, st) {
            1int
        } else {
            0int
        }
    }
}

pub open spec fn b2i(b: bool) -> int {
    if b {
        1int
    } else {
        0int
    }
}

/// How many unmatched presses of `k` are outstanding after the batch `s`,
/// starting from the set `e0` of keys already reported down.
pub open spec fn down_count(e0: Set<KeyCode>, s: Seq<OutputEvent>, k: KeyCode) -> int {
    b2i(e0.contains(k)) + count_in(s, k, KeyState::Press) - count_in(s, k, KeyState::Release)
}

/// The balance condition at one position of a batch: a Press only for a key
/// that is up at that point, a Release only for a key that is down.
pub open spec fn wf_at(e0: Set<KeyCode>, s: Seq<OutputEvent>, i: int) -> bool {
    match s[i] {
        OutputEvent::Key { code, state, .. } => {
            &&& (state is Press ==> down_count(e0, s.take(i), code) == 0)
            &&& (state is Release ==> down_count(e0, s.take(i), code) == 1)
        },
        OutputEvent::Syn { .. } => true,
    }
}

/// A batch is balanced relative to the starting set `e0`.
pub open spec fn well_formed_batch(e0: Set<KeyCode>, s: Seq<OutputEvent>) -> bool {
    forall|i: int| 0 <= i < s.len() ==> #[trigger] wf_at(e0, s, i)
}

/// No `SYN_REPORT` stands first in the batch or right after another
/// `SYN_REPORT`: every frame delimiter closes at least one key event.
pub open spec fn no_empty_syn(s: Seq<OutputEvent>) -> bool {
    forall|i: int| #![trigger s[i]]
        0 <= i < s.len() && s[i] is Syn ==> i > 0 && !(s[i - 1] is Syn)
}

/// A finished batch: frame delimiters are never empty, and a nonempty batch
/// is closed by one.
pub open spec fn batch_framed(s: Seq<OutputEvent>) -> bool {
    no_empty_syn(s) && (s.len() > 0 ==> s.last() is Syn)
}

/// The origin condition at one position: a Press only of an allowed key.
pub open spec fn press_ok_at(allowed: Set<KeyCode>, s: Seq<OutputEvent>, i: int) -> bool {
    match s[i] {
        OutputEvent::Key { code, state, .. } => state is Press ==> allowed.contains(code),
        OutputEvent::Syn { .. } => true,
    }
}

/// Every Press in the batch is of a key drawn from `allowed`.
pub open spec fn presses_from(s: Seq<OutputEvent>, allowed: Set<KeyCode>) -> bool {
    forall|i: int| 0 <= i < s.len() ==> #[trigger] press_ok_at(allowed, s, i)
}

/// Appending one event extends the counts by at most that event.
pub proof fn lemma_count_push(s: Seq<OutputEvent>, e: OutputEvent, k: KeyCode, st: KeyState)
    ensures
        count_in(s.push(e), k, st) == count_in(s, k, st) + if e.is_key(k, st) {
            1int
        } else {
            0int
        },
{
    assert(s.push(e).drop_last() =~= s);
    assert(s.push(e).last() == e);
}

/// The set of keys a sequence holds.
pub open spec fn key_set(s: Seq<KeyCode>) -> Set<KeyCode> {
    Set::new(|k: KeyCode| s.contains(k))
}

/// Whether the sequence holds the key; the linear search the engine's sets
/// are all read through.
pub fn contains_key(v: &Vec<KeyCode>, k: KeyCode) -> (r: bool)
    ensures
        r == v@.contains(k),
{
    let mut i: usize = 0;
    while i < v.len()
        invariant
            0 <= i <= v@.len(),
            forall|j: int| 0 <= j < i ==> v@[j] != k,
        decreases v@.len() - i,
    {
        if v[i] == k {
            assert(v@.contains(k)) by { assert(v@[i as int] == k) };
            return true;
        }
        i += 1;
    }
    false
}

/// Set-like insertion: appends the key unless it is already present.
pub fn insert_key(v: &mut Vec<KeyCode>, k: KeyCode)
    ensures
        old(v)@.contains(k) ==> final(v)@ == old(v)@,
        !old(v)@.contains(k) ==> final(v)@ == old(v)@.push(k),
        forall|x: KeyCode| final(v)@.contains(x) == (old(v)@.contains(x) || x == k),
        old(v)@.no_duplicates() ==> final(v)@.no_duplicates(),
{
    if !contains_key(v, k) {
        v.push(k);
        proof {
            assert forall|x: KeyCode| final(v)@.contains(x) == (old(v)@.contains(x) || x == k) by {
                lemma_push_contains(old(v)@, k, x);
            }
            if old(v)@.no_duplicates() {
                let s = old(v)@;
                let t = final(v)@;
                assert(t.no_duplicates()) by {
                    assert forall|i: int, j: int|
                        0 <= i < t.len() && 0 <= j < t.len() && i != j implies t[i] != t[j] by {
                        if i < s.len() && j < s.len() {
                        } else if i == s.len() {
                            assert(s.contains(s[j]));
                        } else {
                            assert(s.contains(s[i]));
                        }
                    }
                }
            }
        }
    }
}

/// Membership in a pushed sequence.
pub proof fn lemma_push_contains(s: Seq<KeyCode>, k: KeyCode, x: KeyCode)
    ensures
        s.push(k).contains(x) == (s.contains(x) || x == k),
{
    if s.contains(x) {
        let i = choose|i: int| 0 <= i < s.len() && s[i] == x;
        assert(s.push(k)[i] == x);
    }
    if x == k {
        assert(s.push(k)[s.len() as int] == x);
    }
    if s.push(k).contains(x) {
        let i = choose|i: int| 0 <= i < s.push(k).len() && s.push(k)[i] == x;
        if i < s.len() {
            assert(s[i] == x);
        }
    }
}

/// Appending a fresh key keeps a sequence duplicate-free.
pub proof fn lemma_push_nodup(s: Seq<KeyCode>, k: KeyCode)
    requires
        s.no_duplicates(),
        !s.contains(k),
    ensures
        s.push(k).no_duplicates(),
{
    let t = s.push(k);
    assert forall|i: int, j: int| 0 <= i < t.len() && 0 <= j < t.len() && i != j implies t[i]
        != t[j] by {
        if i < s.len() && j < s.len() {
        } else if i == s.len() {
            assert(s.contains(s[j]));
        } else {
            assert(s.contains(s[i]));
        }
    }
}

/// Set-like removal of the first occurrence of the key.
pub fn remove_key(v: &mut Vec<KeyCode>, k: KeyCode)
    ensures
        !old(v)@.contains(k) ==> final(v)@ == old(v)@,
        old(v)@.contains(k) ==> final(v)@.len() == old(v)@.len() - 1,
        final(v)@ == old(v)@.remove_value(k),
        old(v)@.no_duplicates() ==> {
            &&& final(v)@.no_duplicates()
            &&& !final(v)@.contains(k)
            &&& forall|x: KeyCode|
                x != k ==> final(v)@.contains(x) == old(v)@.contains(x)
        },
        old(v)@.no_duplicates() && old(v)@.len() > 0 && old(v)@.last() == k ==> final(v)@ == old(
            v,
        )@.drop_last(),
{
    let ghost orig = v@;
    let mut i: usize = 0;
    while i < v.len()
        invariant
            orig == old(v)@,
            v@ == orig,
            0 <= i <= orig.len(),
            forall|j: int| 0 <= j < i ==> orig[j] != k,
        decreases orig.len() - i,
    {
        if v[i] == k {
            v.remove(i);
            proof {
                assert(v@ =~= orig.subrange(0, i as int) + orig.subrange(
                    i + 1,
                    orig.len() as int,
                ));
                assert(orig.contains(k)) by { assert(orig[i as int] == k) };
                orig.index_of_first_ensures(k);
                assert(orig.index_of_first(k) == Some(i as int)) by {
                    let fi = orig.index_of_first(k)->Some_0;
                    if fi < i {
                        assert(orig[fi] != k);
                    } else if fi > i {
                        assert(orig[i as int] != k);
                    }
                }
                assert(v@ == orig.remove_value(k));
                if orig.no_duplicates() {
                    assert forall|x: KeyCode| x != k implies v@.contains(x) == orig.contains(
                        x,
                    ) by {
                        lemma_remove_at_contains(orig, i as int, x);
                    }
                    assert(!v@.contains(k)) by {
                        if v@.contains(k) {
                            let j = choose|j: int| 0 <= j < v@.len() && v@[j] == k;
                            if j < i {
                                assert(orig[j] == k);
                            } else {
                                assert(orig[j + 1] == k);
                                assert(orig[i as int] == k);
                            }
                        }
                    }
                    assert(v@.no_duplicates()) by {
                        assert forall|a: int, b: int|
                            0 <= a < v@.len() && 0 <= b < v@.len() && a != b implies v@[a]
                            != v@[b] by {
                            let a0 = if a < i { a } else { a + 1 };
                            let b0 = if b < i { b } else { b + 1 };
                            assert(v@[a] == orig[a0]);
                            assert(v@[b] == orig[b0]);
                        }
                    }
                    if orig.len() > 0 && orig.last() == k {
                        assert(i == orig.len() - 1) by {
                            if i < orig.len() - 1 {
                                assert(orig[i as int] == orig[orig.len() - 1]);
                            }
                        }
                        assert(v@ =~= orig.drop_last());
                    }
                }
            }
            return;
        }
        i += 1;
    }
    proof {
        orig.index_of_first_ensures(k);
        assert(!orig.contains(k));
        assert(v@ == orig.remove_value(k));
    }
}

/// Why removal at an index keeps every other key's membership: each index of
/// the shorter sequence maps to one of the longer.
proof fn lemma_remove_at_contains(s: Seq<KeyCode>, i: int, x: KeyCode)
    requires
        0 <= i < s.len(),
        s.no_duplicates(),
        s[i] != x,
    ensures
        (s.subrange(0, i) + s.subrange(i + 1, s.len() as int)).contains(x) == s.contains(x),
{
    let r = s.subrange(0, i) + s.subrange(i + 1, s.len() as int);
    if r.contains(x) {
        let j = choose|j: int| 0 <= j < r.len() && r[j] == x;
        if j < i {
            assert(s[j] == x);
        } else {
            assert(s[j + 1] == x);
        }
    }
    if s.contains(x) {
        let j = choose|j: int| 0 <= j < s.len() && s[j] == x;
        if j < i {
            assert(r[j] == x);
        } else {
            assert(j != i);
            assert(r[j - 1] == x);
        }
    }
}

/// Copies a key list.
pub fn clone_keys(v: &Vec<KeyCode>) -> (r: Vec<KeyCode>)
    ensures
        r@ == v@,
{
    let mut r: Vec<KeyCode> = Vec::new();
    let mut i: usize = 0;
    while i < v.len()
        invariant
            0 <= i <= v@.len(),
            r@ == v@.take(i as int),
        decreases v@.len() - i,
    {
        r.push(v[i]);
        proof {
            assert(v@.take(i as int).push(v@[i as int]) =~= v@.take(i + 1));
        }
        i += 1;
    }
    proof {
        assert(v@.take(v@.len() as int) =~= v@);
    }
    r
}

} // verus!
