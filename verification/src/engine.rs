//! The event-processing engine: the state machine that rewrites the input
//! key stream according to the mapping table.

use vstd::prelude::*;
use crate::keys::{
    KeyCode, KeyState, OutputEvent, Stimulus, count_in, b2i, down_count, wf_at,
    well_formed_batch, no_empty_syn, batch_framed, press_ok_at, presses_from, lemma_count_push,
    key_set, contains_key, insert_key, lemma_push_contains, lemma_push_nodup, remove_key,
    clone_keys,
};
use crate::mapping::{
    Mapping, is_dual_input, in_some_remap_input, in_some_remap_output, in_some_hold, in_some_tap,
    rule_output_key, plain_key, seq_subset, table_wf, lemma_dual_not_in_rules,
};

verus! {

/// A dual-role key whose classification (hold or tap) is still open.
#[derive(Clone, Copy, PartialEq, Eq, Structural, Debug)]
pub struct PendingDual {
    pub code: KeyCode,
    pub press_time: u64,
}

/// The engine's whole mutable state, together with the immutable table.
pub struct Engine {
    /// The compiled rules, in configuration order.
    pub mappings: Vec<Mapping>,
    /// How long a pending dual-role key may stay undecided, in microseconds.
    pub hold_threshold: u64,
    /// The input-device keys currently held down, as reported by the source.
    pub physical_down: Vec<KeyCode>,
    /// The keys currently reported as held on the output device.
    pub emitted_down: Vec<KeyCode>,
    /// The at most one undecided dual-role key.
    pub pending_dual: Option<PendingDual>,
    /// Indices of the chord rules whose whole input set is held.
    pub active_remaps: Vec<usize>,
    /// Dual-role input keys resolved as hold and still physically down.
    pub held_duals: Vec<KeyCode>,
}

/// Rule `i` is a chord whose input set is entirely physically held.
pub open spec fn satisfied(ms: Seq<Mapping>, phys: Seq<KeyCode>, i: int) -> bool {
    0 <= i < ms.len() && ms[i] is Remap && seq_subset(ms[i].remap_input(), phys)
}

/// Every recorded active chord is in fact satisfied.
pub open spec fn active_sound(ms: Seq<Mapping>, phys: Seq<KeyCode>, active: Seq<usize>) -> bool {
    forall|j: int| 0 <= j < active.len() ==> satisfied(ms, phys, #[trigger] active[j] as int)
}

/// Every satisfied chord is recorded as active.
pub open spec fn active_complete(ms: Seq<Mapping>, phys: Seq<KeyCode>, active: Seq<usize>) -> bool {
    forall|i: int|
        0 <= i < ms.len() && #[trigger] satisfied(ms, phys, i) ==> active.contains(i as usize)
}

/// The outputs of every active chord are held on the output device.
pub open spec fn outputs_emitted(ms: Seq<Mapping>, active: Seq<usize>, em: Seq<KeyCode>) -> bool {
    forall|j: int|
        0 <= j < active.len() ==> seq_subset(
            ms[#[trigger] active[j] as int].remap_output(),
            em,
        )
}

/// Some active chord's output, or some held dual-role rule's hold set,
/// still asks for `k` to be down.
pub open spec fn required_output(
    ms: Seq<Mapping>,
    active: Seq<usize>,
    held: Seq<KeyCode>,
    k: KeyCode,
) -> bool {
    ||| (exists|j: int|
        #![trigger active[j]]
        0 <= j < active.len() && (active[j] as int) < ms.len()
            && ms[active[j] as int].remap_output().contains(k))
    ||| (exists|d: int, i: int|
        #![trigger held[d], ms[i]]
        0 <= d < held.len() && 0 <= i < ms.len() && ms[i].is_dual() && ms[i].dual_input()
            == held[d] && ms[i].hold_keys().contains(k))
}

/// Why an emitted key is down: it is physically held, or a rule holds it.
pub open spec fn justified_key(
    ms: Seq<Mapping>,
    phys: Seq<KeyCode>,
    active: Seq<usize>,
    held: Seq<KeyCode>,
    k: KeyCode,
) -> bool {
    phys.contains(k) || required_output(ms, active, held, k)
}

impl Engine {
    /// The engine's internal invariant; it holds after construction and is
    /// preserved by every transition.
    pub open spec fn wf(self) -> bool {
        &&& table_wf(self.mappings@)
        &&& self.physical_down@.no_duplicates()
        &&& self.emitted_down@.no_duplicates()
        &&& self.held_duals@.no_duplicates()
        &&& self.active_remaps@.no_duplicates()
        &&& active_sound(self.mappings@, self.physical_down@, self.active_remaps@)
        &&& active_complete(self.mappings@, self.physical_down@, self.active_remaps@)
        &&& outputs_emitted(self.mappings@, self.active_remaps@, self.emitted_down@)
        &&& (forall|j: int|
            0 <= j < self.held_duals@.len() ==> is_dual_input(
                self.mappings@,
                #[trigger] self.held_duals@[j],
            ) && self.physical_down@.contains(self.held_duals@[j]))
        &&& (self.pending_dual matches Some(p) ==> is_dual_input(self.mappings@, p.code)
            && self.physical_down@.contains(p.code) && !self.held_duals@.contains(p.code))
        &&& (forall|j: int|
            0 <= j < self.emitted_down@.len() ==> justified_key(
                self.mappings@,
                self.physical_down@,
                self.active_remaps@,
                self.held_duals@,
                #[trigger] self.emitted_down@[j],
            ))
        &&& (forall|j: int|
            0 <= j < self.emitted_down@.len() ==> !is_dual_input(
                self.mappings@,
                #[trigger] self.emitted_down@[j],
            ))
    }
}

/// The invariant carried while one batch of output is being built: the
/// batch is balanced against the starting set `e0`, its net effect is
/// mirrored in `em`, and every Press is of an allowed key.
pub open spec fn batch_inv(
    e0: Set<KeyCode>,
    allowed: Set<KeyCode>,
    s: Seq<OutputEvent>,
    em: Seq<KeyCode>,
) -> bool {
    &&& well_formed_batch(e0, s)
    &&& (forall|k: KeyCode| #[trigger] down_count(e0, s, k) == b2i(em.contains(k)))
    &&& em.no_duplicates()
    &&& no_empty_syn(s)
    &&& presses_from(s, allowed)
}

/// The releases one sweep over `keys` emits: one Release for each listed
/// key still down that no rule of `active` or `held` requires, once each,
/// in list order.
pub open spec fn retract_seq(
    ms: Seq<Mapping>,
    active: Seq<usize>,
    held: Seq<KeyCode>,
    keys: Seq<KeyCode>,
    em: Set<KeyCode>,
    t: u64,
) -> Seq<OutputEvent>
    decreases keys.len(),
{
    if keys.len() == 0 {
        Seq::empty()
    } else {
        let pre = retract_seq(ms, active, held, keys.drop_last(), em, t);
        let k = keys.last();
        if em.contains(k) && !required_output(ms, active, held, k) && !keys.drop_last().contains(
            k,
        ) {
            pre.push(OutputEvent::Key { time: t, code: k, state: KeyState::Release })
        } else {
            pre
        }
    }
}

/// A nonempty sweep ends in a key event, never in a frame mark.
pub proof fn lemma_retract_seq_last(
    ms: Seq<Mapping>,
    active: Seq<usize>,
    held: Seq<KeyCode>,
    keys: Seq<KeyCode>,
    em: Set<KeyCode>,
    t: u64,
)
    ensures
        retract_seq(ms, active, held, keys, em, t).len() > 0 ==> !(retract_seq(
            ms,
            active,
            held,
            keys,
            em,
            t,
        ).last() is Syn),
    decreases keys.len(),
{
    if keys.len() > 0 {
        lemma_retract_seq_last(ms, active, held, keys.drop_last(), em, t);
    }
}

/// The emitted set after a sweep: `em` less the swept keys nothing requires.
pub open spec fn retracted_em(
    ms: Seq<Mapping>,
    active: Seq<usize>,
    held: Seq<KeyCode>,
    keys: Seq<KeyCode>,
    em: Set<KeyCode>,
) -> Set<KeyCode> {
    Set::new(
        |x: KeyCode|
            em.contains(x) && !(keys.contains(x) && !required_output(ms, active, held, x)),
    )
}

/// The whole batch a chord activation emits: first the rule's still-down
/// input keys are retracted, then its outputs pressed, in list order.
pub open spec fn chord_on_batch(
    ms: Seq<Mapping>,
    active: Seq<usize>,
    held: Seq<KeyCode>,
    r: int,
    em: Set<KeyCode>,
    t: u64,
) -> Seq<OutputEvent> {
    retract_seq(ms, active, held, ms[r].remap_input(), em, t) + press_expansion(
        ms[r].remap_output(),
        retracted_em(ms, active, held, ms[r].remap_input(), em),
        t,
    )
}

/// Exactly one chord rule becomes satisfied.
pub open spec fn lone_activation(olda: Seq<usize>, newa: Seq<usize>, r: usize) -> bool {
    &&& newa.contains(r)
    &&& !olda.contains(r)
    &&& forall|u: usize| u != r ==> #[trigger] newa.contains(u) == olda.contains(u)
}

/// Exactly one chord rule stops being satisfied.
pub open spec fn lone_deactivation(olda: Seq<usize>, newa: Seq<usize>, r: usize) -> bool {
    &&& olda.contains(r)
    &&& !newa.contains(r)
    &&& forall|u: usize| u != r ==> #[trigger] newa.contains(u) == olda.contains(u)
}

/// What a key needs depends only on which rules are active, not on how the
/// index list spells them.
pub proof fn lemma_required_equiv(
    ms: Seq<Mapping>,
    a1: Seq<usize>,
    a2: Seq<usize>,
    held: Seq<KeyCode>,
    k: KeyCode,
)
    requires
        forall|u: usize| #[trigger] a1.contains(u) == a2.contains(u),
    ensures
        required_output(ms, a1, held, k) == required_output(ms, a2, held, k),
{
    if exists|j: int|
        #![trigger a1[j]]
        0 <= j < a1.len() && (a1[j] as int) < ms.len() && ms[a1[j] as int].remap_output(
        ).contains(k) {
        let j = choose|j: int|
            #![trigger a1[j]]
            0 <= j < a1.len() && (a1[j] as int) < ms.len() && ms[a1[j] as int].remap_output(
            ).contains(k);
        assert(a1.contains(a1[j]));
        assert(a2.contains(a1[j]));
        let j2 = choose|j2: int| 0 <= j2 < a2.len() && a2[j2] == a1[j];
        assert(0 <= j2 < a2.len() && (a2[j2] as int) < ms.len() && ms[a2[j2] as int].remap_output(
        ).contains(k));
    }
    if exists|j: int|
        #![trigger a2[j]]
        0 <= j < a2.len() && (a2[j] as int) < ms.len() && ms[a2[j] as int].remap_output(
        ).contains(k) {
        let j = choose|j: int|
            #![trigger a2[j]]
            0 <= j < a2.len() && (a2[j] as int) < ms.len() && ms[a2[j] as int].remap_output(
            ).contains(k);
        assert(a2.contains(a2[j]));
        assert(a1.contains(a2[j]));
        let j2 = choose|j2: int| 0 <= j2 < a1.len() && a1[j2] == a2[j];
        assert(0 <= j2 < a1.len() && (a1[j2] as int) < ms.len() && ms[a1[j2] as int].remap_output(
        ).contains(k));
    }
}

/// Neither does a sweep.
pub proof fn lemma_retract_seq_equiv(
    ms: Seq<Mapping>,
    a1: Seq<usize>,
    a2: Seq<usize>,
    held: Seq<KeyCode>,
    keys: Seq<KeyCode>,
    em: Set<KeyCode>,
    t: u64,
)
    requires
        forall|u: usize| #[trigger] a1.contains(u) == a2.contains(u),
    ensures
        retract_seq(ms, a1, held, keys, em, t) == retract_seq(ms, a2, held, keys, em, t),
        retracted_em(ms, a1, held, keys, em) == retracted_em(ms, a2, held, keys, em),
    decreases keys.len(),
{
    assert forall|x: KeyCode| #[trigger]
        required_output(ms, a1, held, x) == required_output(ms, a2, held, x) by {
        lemma_required_equiv(ms, a1, a2, held, x);
    }
    if keys.len() > 0 {
        lemma_retract_seq_equiv(ms, a1, a2, held, keys.drop_last(), em, t);
    }
    assert(retracted_em(ms, a1, held, keys, em) =~= retracted_em(ms, a2, held, keys, em));
}

/// Removing one index from a duplicate-free list removes exactly it.
pub proof fn lemma_index_remove_value(s: Seq<usize>, v: usize)
    requires
        s.no_duplicates(),
    ensures
        !s.remove_value(v).contains(v),
        forall|u: usize| u != v ==> #[trigger] s.remove_value(v).contains(u) == s.contains(u),
{
    s.index_of_first_ensures(v);
    if s.contains(v) {
        let i = s.index_of_first(v)->Some_0;
        let r = s.remove(i);
        assert(r =~= s.subrange(0, i) + s.subrange(i + 1, s.len() as int));
        assert forall|u: usize| #[trigger] r.contains(u) == (s.contains(u) && u != v) by {
            if r.contains(u) {
                let j = choose|j: int| 0 <= j < r.len() && r[j] == u;
                if j < i {
                    assert(s[j] == u);
                } else {
                    assert(s[j + 1] == u);
                    assert(s[j + 1] != s[i]);
                }
            }
            if s.contains(u) && u != v {
                let j = choose|j: int| 0 <= j < s.len() && s[j] == u;
                if j < i {
                    assert(r[j] == u);
                } else {
                    assert(j != i);
                    assert(r[j - 1] == u);
                }
            }
        }
    }
}

/// The emitted set `em` is `em0` with exactly the unneeded keys of `pref`
/// swept out.
pub open spec fn em_after_sweep(
    em: Seq<KeyCode>,
    em0: Set<KeyCode>,
    ms: Seq<Mapping>,
    active: Seq<usize>,
    held: Seq<KeyCode>,
    pref: Seq<KeyCode>,
) -> bool {
    forall|x: KeyCode|
        #[trigger] em.contains(x) == (em0.contains(x) && !(pref.contains(x) && !required_output(
            ms,
            active,
            held,
            x,
        )))
}

/// The emitted set `em` is `em0` extended by exactly the keys of `pref`.
pub open spec fn em_tracks(em: Seq<KeyCode>, em0: Seq<KeyCode>, pref: Seq<KeyCode>) -> bool {
    forall|x: KeyCode| #[trigger] em.contains(x) == (em0.contains(x) || pref.contains(x))
}

/// No key of `em` is a dual-role input.
pub open spec fn em_dual_free(ms: Seq<Mapping>, em: Seq<KeyCode>) -> bool {
    forall|j: int| 0 <= j < em.len() ==> !is_dual_input(ms, #[trigger] em[j])
}

/// Every key of `em` is justified against the given state.
pub open spec fn em_justified(
    ms: Seq<Mapping>,
    phys: Seq<KeyCode>,
    active: Seq<usize>,
    held: Seq<KeyCode>,
    em: Seq<KeyCode>,
) -> bool {
    forall|j: int|
        0 <= j < em.len() ==> justified_key(ms, phys, active, held, #[trigger] em[j])
}

/// During an activation change: every emitted key is justified against the
/// outgoing rules or already required by the incoming ones.
pub open spec fn em_just_mixed(
    ms: Seq<Mapping>,
    phys: Seq<KeyCode>,
    olda: Seq<usize>,
    newa: Seq<usize>,
    held: Seq<KeyCode>,
    em: Seq<KeyCode>,
) -> bool {
    forall|j: int|
        0 <= j < em.len() ==> justified_key(ms, phys, olda, held, #[trigger] em[j])
            || required_output(ms, newa, held, em[j])
}

/// During the deactivation sweep: every emitted key is physically held,
/// required by an incoming rule or a held dual, or an output of an outgoing
/// rule the sweep has not reached yet.
pub open spec fn em_just_sweep(
    ms: Seq<Mapping>,
    phys: Seq<KeyCode>,
    newa: Seq<usize>,
    held: Seq<KeyCode>,
    olda: Seq<usize>,
    d: int,
    em: Seq<KeyCode>,
) -> bool {
    forall|j: int|
        0 <= j < em.len() ==> phys.contains(#[trigger] em[j]) || required_output(
            ms,
            newa,
            held,
            em[j],
        ) || (exists|d2: int|
            #![trigger olda[d2]]
            d <= d2 < olda.len() && !newa.contains(olda[d2]) && (olda[d2] as int) < ms.len()
                && ms[olda[d2] as int].remap_output().contains(em[j]))
}

/// After a chord activation: the retained keys plus the rule's outputs.
pub open spec fn em_after_chord(
    em: Seq<KeyCode>,
    em0: Set<KeyCode>,
    ms: Seq<Mapping>,
    active: Seq<usize>,
    held: Seq<KeyCode>,
    r: int,
) -> bool {
    forall|x: KeyCode|
        #[trigger] em.contains(x) == (retracted_em(
            ms,
            active,
            held,
            ms[r].remap_input(),
            em0,
        ).contains(x) || ms[r].remap_output().contains(x))
}

/// Membership in a pushed index list.
pub proof fn lemma_index_push_contains(s: Seq<usize>, v: usize, u: usize)
    ensures
        s.push(v).contains(u) == (s.contains(u) || u == v),
{
    if s.contains(u) {
        let i = choose|i: int| 0 <= i < s.len() && s[i] == u;
        assert(s.push(v)[i] == u);
    }
    if u == v {
        assert(s.push(v)[s.len() as int] == u);
    }
    if s.push(v).contains(u) {
        let i = choose|i: int| 0 <= i < s.push(v).len() && s.push(v)[i] == u;
        if i < s.len() {
            assert(s[i] == u);
        }
    }
}

/// The keys one stimulus may legitimately press: anything a rule can emit,
/// and the stimulus's own key passed through.
pub open spec fn allowed_for(ms: Seq<Mapping>, stim: Stimulus) -> Set<KeyCode> {
    Set::new(
        |k: KeyCode|
            rule_output_key(ms, k) || (stim matches Stimulus::Key(e) && e.code == k),
    )
}

/// A batch closed by a `SYN_REPORT` unless it is empty.
pub open spec fn framed(s: Seq<OutputEvent>, t: u64) -> Seq<OutputEvent> {
    if s.len() == 0 {
        s
    } else {
        s.push(OutputEvent::Syn { time: t })
    }
}

/// One Release for each listed key, last key first.
pub open spec fn release_all(keys: Seq<KeyCode>, t: u64) -> Seq<OutputEvent>
    decreases keys.len(),
{
    if keys.len() == 0 {
        Seq::empty()
    } else {
        seq![OutputEvent::Key { time: t, code: keys.last(), state: KeyState::Release }]
            + release_all(keys.drop_last(), t)
    }
}

/// A nonempty press expansion ends in a key event, never in a frame mark.
pub proof fn lemma_press_expansion_last(keys: Seq<KeyCode>, em: Set<KeyCode>, t: u64)
    ensures
        press_expansion(keys, em, t).len() > 0 ==> !(press_expansion(keys, em, t).last() is Syn),
    decreases keys.len(),
{
    if keys.len() > 0 {
        lemma_press_expansion_last(keys.drop_last(), em, t);
    }
}

/// A nonempty tap expansion ends in the frame mark that closes its last
/// cycle.
pub proof fn lemma_tap_expansion_last(keys: Seq<KeyCode>, em: Set<KeyCode>, t: u64)
    ensures
        tap_expansion(keys, em, t).len() > 0 ==> tap_expansion(keys, em, t).last() is Syn,
    decreases keys.len(),
{
    if keys.len() > 0 {
        lemma_tap_expansion_last(keys.drop_last(), em, t);
        let pre = tap_expansion(keys.drop_last(), em, t);
        let k = keys.last();
        if !em.contains(k) {
            let cycle = seq![
                OutputEvent::Key { time: t, code: k, state: KeyState::Press },
                OutputEvent::Syn { time: t },
                OutputEvent::Key { time: t, code: k, state: KeyState::Release },
                OutputEvent::Syn { time: t },
            ];
            assert((pre + cycle).last() == cycle[3]);
        }
    }
}

/// Whether `k` takes part in no rule: not a dual input, in no chord input,
/// in no chord output.
fn key_is_plain(ms: &Vec<Mapping>, k: KeyCode) -> (r: bool)
    ensures
        r == plain_key(ms@, k),
{
    let mut i: usize = 0;
    while i < ms.len()
        invariant
            0 <= i <= ms@.len(),
            forall|j: int|
                0 <= j < i ==> !((#[trigger] ms@[j]).is_dual() && ms@[j].dual_input() == k)
                    && !ms@[j].remap_input().contains(k) && !ms@[j].remap_output().contains(k),
        decreases ms@.len() - i,
    {
        let hit = match &ms[i] {
            Mapping::DualRole { input, .. } => *input == k,
            Mapping::Remap { input, output } => contains_key(input, k) || contains_key(output, k),
        };
        if hit {
            proof {
                assert(!plain_key(ms@, k)) by {
                    let m = ms@[i as int];
                    if m.is_dual() && m.dual_input() == k {
                        assert(is_dual_input(ms@, k));
                    } else if m.remap_input().contains(k) {
                        assert(in_some_remap_input(ms@, k));
                    } else {
                        assert(in_some_remap_output(ms@, k));
                    }
                }
            }
            return false;
        }
        i += 1;
    }
    proof {
        if is_dual_input(ms@, k) {
            let i2 = choose|i2: int|
                0 <= i2 < ms@.len() && (#[trigger] ms@[i2]).is_dual() && ms@[i2].dual_input()
                    == k;
            assert(false);
        }
        if in_some_remap_input(ms@, k) {
            let i2 = choose|i2: int|
                0 <= i2 < ms@.len() && (#[trigger] ms@[i2]).remap_input().contains(k);
            assert(false);
        }
        if in_some_remap_output(ms@, k) {
            let i2 = choose|i2: int|
                0 <= i2 < ms@.len() && (#[trigger] ms@[i2]).remap_output().contains(k);
            assert(false);
        }
    }
    true
}

/// Whether some rule of `active` consumes `k` as part of its chord input.
fn consumed_by_active(ms: &Vec<Mapping>, active: &Vec<usize>, k: KeyCode) -> (r: bool)
    requires
        forall|j: int| 0 <= j < active@.len() ==> (#[trigger] active@[j] as int) < ms@.len(),
    ensures
        r == (exists|j: int|
            #![trigger active@[j]]
            0 <= j < active@.len() && ms@[active@[j] as int].remap_input().contains(k)),
{
    let mut j: usize = 0;
    while j < active.len()
        invariant
            0 <= j <= active@.len(),
            forall|j2: int| 0 <= j2 < active@.len() ==> (#[trigger] active@[j2] as int) < ms@.len(),
            forall|j2: int|
                0 <= j2 < j ==> !ms@[(#[trigger] active@[j2]) as int].remap_input().contains(k),
        decreases active@.len() - j,
    {
        let idx = active[j];
        let hit = match &ms[idx] {
            Mapping::DualRole { .. } => false,
            Mapping::Remap { input, .. } => contains_key(input, k),
        };
        if hit {
            proof {
                assert(0 <= j < active@.len() && ms@[active@[j as int] as int].remap_input(
                ).contains(k));
            }
            return true;
        }
        j += 1;
    }
    proof {
        if exists|j2: int|
            #![trigger active@[j2]]
            0 <= j2 < active@.len() && ms@[active@[j2] as int].remap_input().contains(k) {
            let j2 = choose|j2: int|
                #![trigger active@[j2]]
                0 <= j2 < active@.len() && ms@[active@[j2] as int].remap_input().contains(k);
            assert(false);
        }
    }
    false
}

/// Checks the whole table well-formedness that `Engine::new` asks for.
#[verifier::rlimit(100)]
pub fn table_well_formed(ms: &Vec<Mapping>) -> (r: bool)
    ensures
        r == table_wf(ms@),
{
    let n = ms.len();
    let mut i: usize = 0;
    while i < n
        invariant
            n == ms@.len(),
            0 <= i <= n,
            forall|i2: int, j2: int|
                0 <= i2 < i && i2 < j2 < ms@.len() && (#[trigger] ms@[i2]).is_dual() && (
                #[trigger] ms@[j2]).is_dual() ==> ms@[i2].dual_input() != ms@[j2].dual_input(),
            forall|i2: int|
                0 <= i2 < i && (#[trigger] ms@[i2]) is Remap ==> ms@[i2].remap_input().len() > 0,
            forall|i2: int, j2: int|
                0 <= i2 < i && i2 < j2 < ms@.len() && (#[trigger] ms@[i2]) is Remap && (
                #[trigger] ms@[j2]) is Remap ==> !(seq_subset(
                    ms@[i2].remap_input(),
                    ms@[j2].remap_input(),
                ) && seq_subset(ms@[j2].remap_input(), ms@[i2].remap_input())),
            forall|i2: int, j2: int|
                0 <= i2 < i && 0 <= j2 < ms@.len() && (#[trigger] ms@[i2]).is_dual() ==> !(
                #[trigger] ms@[j2]).remap_input().contains(ms@[i2].dual_input()) && !ms@[
                    j2
                ].remap_output().contains(ms@[i2].dual_input()) && !ms@[j2].hold_keys().contains(
                    ms@[i2].dual_input(),
                ) && !ms@[j2].tap_keys().contains(ms@[i2].dual_input()),
        decreases n - i,
    {
        let is_dual_i = match &ms[i] {
            Mapping::DualRole { .. } => true,
            Mapping::Remap { .. } => false,
        };
        if is_dual_i {
            let d = match &ms[i] {
                Mapping::DualRole { input, .. } => *input,
                Mapping::Remap { .. } => KeyCode(0),
            };
            let mut j: usize = 0;
            while j < n
                invariant
                    n == ms@.len(),
                    0 <= i < n,
                    0 <= j <= n,
                    ms@[i as int].is_dual(),
                    d == ms@[i as int].dual_input(),
                    forall|j2: int|
                        i < j2 < j ==> !((#[trigger] ms@[j2]).is_dual() && ms@[j2].dual_input()
                            == d),
                    forall|j2: int|
                        0 <= j2 < j ==> !(#[trigger] ms@[j2]).remap_input().contains(d) && !ms@[
                            j2
                        ].remap_output().contains(d) && !ms@[j2].hold_keys().contains(d) && !ms@[
                            j2
                        ].tap_keys().contains(d),
                decreases n - j,
            {
                let bad = match &ms[j] {
                    Mapping::DualRole { input, hold, tap } => (j > i && *input == d)
                        || contains_key(hold, d) || contains_key(tap, d),
                    Mapping::Remap { input, output } => contains_key(input, d) || contains_key(
                        output,
                        d,
                    ),
                };
                if bad {
                    proof {
                        assert(!table_wf(ms@)) by {
                            let m = ms@[j as int];
                            if m.is_dual() && j > i && m.dual_input() == d {
                                assert(ms@[i as int].is_dual() && ms@[j as int].is_dual()
                                    && ms@[i as int].dual_input() == ms@[j as int].dual_input());
                            }
                        }
                    }
                    return false;
                }
                j += 1;
            }
        } else {
            let empty_input = match &ms[i] {
                Mapping::DualRole { .. } => false,
                Mapping::Remap { input, .. } => input.len() == 0,
            };
            if empty_input {
                proof {
                    assert(!table_wf(ms@)) by {
                        assert(ms@[i as int] is Remap && ms@[i as int].remap_input().len() == 0);
                    }
                }
                return false;
            }
            let mut j: usize = i + 1;
            while j < n
                invariant
                    n == ms@.len(),
                    0 <= i < n,
                    i + 1 <= j <= n,
                    ms@[i as int] is Remap,
                    forall|j2: int|
                        i < j2 < j && (#[trigger] ms@[j2]) is Remap ==> !(seq_subset(
                            ms@[i as int].remap_input(),
                            ms@[j2].remap_input(),
                        ) && seq_subset(ms@[j2].remap_input(), ms@[i as int].remap_input())),
                decreases n - j,
            {
                let dup = match (&ms[i], &ms[j]) {
                    (
                        Mapping::Remap { input: inp_i, .. },
                        Mapping::Remap { input: inp_j, .. },
                    ) => keys_subset(inp_i, inp_j) && keys_subset(inp_j, inp_i),
                    _ => false,
                };
                if dup {
                    proof {
                        assert(!table_wf(ms@)) by {
                            assert(ms@[i as int] is Remap && ms@[j as int] is Remap
                                && seq_subset(
                                ms@[i as int].remap_input(),
                                ms@[j as int].remap_input(),
                            ) && seq_subset(
                                ms@[j as int].remap_input(),
                                ms@[i as int].remap_input(),
                            ));
                        }
                    }
                    return false;
                }
                j += 1;
            }
        }
        i += 1;
    }
    true
}

/// The first dual-role rule for input key `k`, if any.
fn dual_role_for(ms: &Vec<Mapping>, k: KeyCode) -> (r: Option<usize>)
    ensures
        r matches Some(i) ==> i < ms@.len() && ms@[i as int].is_dual() && ms@[
            i as int
        ].dual_input() == k,
        r is Some <==> is_dual_input(ms@, k),
{
    let mut i: usize = 0;
    while i < ms.len()
        invariant
            0 <= i <= ms@.len(),
            forall|j: int| 0 <= j < i ==> !((#[trigger] ms@[j]).is_dual() && ms@[j].dual_input() == k),
        decreases ms@.len() - i,
    {
        let hit = match &ms[i] {
            Mapping::DualRole { input, .. } => *input == k,
            Mapping::Remap { .. } => false,
        };
        if hit {
            assert(is_dual_input(ms@, k)) by {
                assert(ms@[i as int].is_dual() && ms@[i as int].dual_input() == k);
            }
            return Some(i);
        }
        i += 1;
    }
    None
}

/// Whether every key of `a` is in `b`.
fn keys_subset(a: &Vec<KeyCode>, b: &Vec<KeyCode>) -> (r: bool)
    ensures
        r == seq_subset(a@, b@),
{
    let mut i: usize = 0;
    while i < a.len()
        invariant
            0 <= i <= a@.len(),
            forall|j: int| 0 <= j < i ==> b@.contains(#[trigger] a@[j]),
        decreases a@.len() - i,
    {
        if !contains_key(b, a[i]) {
            return false;
        }
        i += 1;
    }
    true
}

/// Whether the index list holds `idx`.
fn contains_index(v: &Vec<usize>, idx: usize) -> (r: bool)
    ensures
        r == v@.contains(idx),
{
    let mut i: usize = 0;
    while i < v.len()
        invariant
            0 <= i <= v@.len(),
            forall|j: int| 0 <= j < i ==> v@[j] != idx,
        decreases v@.len() - i,
    {
        if v[i] == idx {
            assert(v@.contains(idx)) by { assert(v@[i as int] == idx) };
            return true;
        }
        i += 1;
    }
    false
}

/// The chord rules satisfied by the given set of held keys, in table order.
fn compute_active(ms: &Vec<Mapping>, phys: &Vec<KeyCode>) -> (r: Vec<usize>)
    ensures
        r@.no_duplicates(),
        active_sound(ms@, phys@, r@),
        active_complete(ms@, phys@, r@),
{
    let mut r: Vec<usize> = Vec::new();
    let mut i: usize = 0;
    while i < ms.len()
        invariant
            0 <= i <= ms@.len(),
            forall|j: int| 0 <= j < r@.len() ==> (#[trigger] r@[j] as int) < i,
            active_sound(ms@, phys@, r@),
            forall|i2: int| 0 <= i2 < i && #[trigger] satisfied(ms@, phys@, i2) ==> r@.contains(
                i2 as usize,
            ),
            r@.no_duplicates(),
        decreases ms@.len() - i,
    {
        let sat = match &ms[i] {
            Mapping::DualRole { .. } => false,
            Mapping::Remap { input, .. } => keys_subset(input, phys),
        };
        let ghost r0 = r@;
        if sat {
            assert(satisfied(ms@, phys@, i as int));
            r.push(i);
            proof {
                assert forall|j: int| 0 <= j < r@.len() implies satisfied(
                    ms@,
                    phys@,
                    #[trigger] r@[j] as int,
                ) by {
                    if j < r0.len() {
                        assert(r@[j] == r0[j]);
                    }
                }
                assert(r@.no_duplicates()) by {
                    assert forall|a: int, b: int|
                        0 <= a < r@.len() && 0 <= b < r@.len() && a != b implies r@[a] != r@[b] by {
                        if a < r0.len() && b < r0.len() {
                            assert(r@[a] == r0[a] && r@[b] == r0[b]);
                        }
                    }
                }
            }
        }
        proof {
            assert forall|i2: int|
                0 <= i2 < i + 1 && #[trigger] satisfied(ms@, phys@, i2) implies r@.contains(
                i2 as usize,
            ) by {
                if i2 < i {
                    if sat {
                        assert(r0.contains(i2 as usize));
                        let j = choose|j: int| 0 <= j < r0.len() && r0[j] == i2 as usize;
                        assert(r@[j] == i2 as usize);
                    }
                } else {
                    assert(r@[r@.len() - 1] == i2 as usize);
                }
            }
        }
        i += 1;
    }
    r
}

/// Whether some active chord or some held dual still asks for `k`.
fn required_elsewhere(
    ms: &Vec<Mapping>,
    active: &Vec<usize>,
    held: &Vec<KeyCode>,
    k: KeyCode,
) -> (r: bool)
    requires
        table_wf(ms@),
        forall|j: int| 0 <= j < active@.len() ==> (#[trigger] active@[j] as int) < ms@.len(),
        forall|d: int| 0 <= d < held@.len() ==> is_dual_input(ms@, #[trigger] held@[d]),
    ensures
        r == required_output(ms@, active@, held@, k),
{
    let mut j: usize = 0;
    while j < active.len()
        invariant
            0 <= j <= active@.len(),
            forall|j2: int| 0 <= j2 < active@.len() ==> (#[trigger] active@[j2] as int) < ms@.len(),
            forall|j2: int|
                0 <= j2 < j ==> !ms@[(#[trigger] active@[j2]) as int].remap_output().contains(k),
        decreases active@.len() - j,
    {
        let idx = active[j];
        let hit = match &ms[idx] {
            Mapping::DualRole { .. } => false,
            Mapping::Remap { output, .. } => contains_key(output, k),
        };
        if hit {
            assert(required_output(ms@, active@, held@, k)) by {
                assert(ms@[active@[j as int] as int].remap_output().contains(k));
            }
            return true;
        }
        j += 1;
    }
    let mut d: usize = 0;
    while d < held.len()
        invariant
            0 <= d <= held@.len(),
            table_wf(ms@),
            forall|d2: int| 0 <= d2 < held@.len() ==> is_dual_input(ms@, #[trigger] held@[d2]),
            forall|d2: int, i: int|
                #![trigger held@[d2], ms@[i]]
                0 <= d2 < d && 0 <= i < ms@.len() && ms@[i].is_dual() && ms@[i].dual_input()
                    == held@[d2] ==> !ms@[i].hold_keys().contains(k),
        decreases held@.len() - d,
    {
        let r = dual_role_for(ms, held[d]);
        match r {
            Some(i) => {
                let hit = match &ms[i] {
                    Mapping::DualRole { hold, .. } => contains_key(hold, k),
                    Mapping::Remap { .. } => false,
                };
                if hit {
                    assert(required_output(ms@, active@, held@, k)) by {
                        assert(0 <= d < held@.len() && 0 <= i < ms@.len() && ms@[
                            i as int
                        ].is_dual() && ms@[i as int].dual_input() == held@[d as int] && ms@[
                            i as int
                        ].hold_keys().contains(k));
                    }
                    return true;
                }
                proof {
                    assert forall|i2: int|
                        0 <= i2 < ms@.len() && ms@[i2].is_dual() && ms@[i2].dual_input() == held@[
                        d as int
                    ] implies !ms@[i2].hold_keys().contains(k) by {
                        if i2 != i {
                            if i2 < i {
                                assert(ms@[i2].dual_input() != ms@[i as int].dual_input());
                            } else {
                                assert(ms@[i as int].dual_input() != ms@[i2].dual_input());
                            }
                        }
                    }
                }
            },
            None => {
                assert(false);
            },
        }
        d += 1;
    }
    proof {
        if required_output(ms@, active@, held@, k) {
            if exists|j2: int|
                #![trigger active@[j2]]
                0 <= j2 < active@.len() && (active@[j2] as int) < ms@.len() && ms@[active@[
                    j2
                ] as int].remap_output().contains(k) {
                let j2 = choose|j2: int|
                    #![trigger active@[j2]]
                    0 <= j2 < active@.len() && (active@[j2] as int) < ms@.len() && ms@[active@[
                        j2
                    ] as int].remap_output().contains(k);
                assert(!ms@[active@[j2] as int].remap_output().contains(k));
            } else {
                let (d2, i) = choose|d2: int, i: int|
                    #![trigger held@[d2], ms@[i]]
                    0 <= d2 < held@.len() && 0 <= i < ms@.len() && ms@[i].is_dual() && ms@[
                        i
                    ].dual_input() == held@[d2] && ms@[i].hold_keys().contains(k);
                assert(!ms@[i].hold_keys().contains(k));
            }
        }
    }
    false
}

/// The index of the dual-role rule for input `k`; under `table_wf` there is
/// at most one.
pub open spec fn dual_rule_index(ms: Seq<Mapping>, k: KeyCode) -> int {
    choose|i: int| 0 <= i < ms.len() && (#[trigger] ms[i]).is_dual() && ms[i].dual_input() == k
}

/// The hold set of the dual-role rule for `k`.
pub open spec fn dual_hold(ms: Seq<Mapping>, k: KeyCode) -> Seq<KeyCode> {
    ms[dual_rule_index(ms, k)].hold_keys()
}

/// The tap sequence of the dual-role rule for `k`.
pub open spec fn dual_tap(ms: Seq<Mapping>, k: KeyCode) -> Seq<KeyCode> {
    ms[dual_rule_index(ms, k)].tap_keys()
}

/// Under `table_wf`, any dual-role rule for `k` is the one `dual_rule_index`
/// names.
pub proof fn lemma_dual_rule_unique(ms: Seq<Mapping>, k: KeyCode, i: int)
    requires
        table_wf(ms),
        0 <= i < ms.len(),
        ms[i].is_dual(),
        ms[i].dual_input() == k,
    ensures
        i == dual_rule_index(ms, k),
{
    assert(is_dual_input(ms, k)) by {
        assert(ms[i].is_dual() && ms[i].dual_input() == k);
    }
    let ci = dual_rule_index(ms, k);
    if i < ci {
        assert(ms[i].dual_input() != ms[ci].dual_input());
    } else if ci < i {
        assert(ms[ci].dual_input() != ms[i].dual_input());
    }
}

/// The press sequence that holds down each listed key not already down:
/// one Press per new key, in list order.
pub open spec fn press_expansion(keys: Seq<KeyCode>, em: Set<KeyCode>, t: u64) -> Seq<OutputEvent>
    decreases keys.len(),
{
    if keys.len() == 0 {
        Seq::empty()
    } else {
        let pre = press_expansion(keys.drop_last(), em, t);
        let k = keys.last();
        if em.contains(k) || keys.drop_last().contains(k) {
            pre
        } else {
            pre.push(OutputEvent::Key { time: t, code: k, state: KeyState::Press })
        }
    }
}

/// The tap sequence: for each listed key not currently down, a full
/// press/release cycle framed by its own `SYN_REPORT`s.
pub open spec fn tap_expansion(keys: Seq<KeyCode>, em: Set<KeyCode>, t: u64) -> Seq<OutputEvent>
    decreases keys.len(),
{
    if keys.len() == 0 {
        Seq::empty()
    } else {
        let pre = tap_expansion(keys.drop_last(), em, t);
        let k = keys.last();
        if em.contains(k) {
            pre
        } else {
            pre + seq![
                OutputEvent::Key { time: t, code: k, state: KeyState::Press },
                OutputEvent::Syn { time: t },
                OutputEvent::Key { time: t, code: k, state: KeyState::Release },
                OutputEvent::Syn { time: t },
            ]
        }
    }
}

/// The hold and tap lists of a dual-role rule, copied out.
fn dual_parts(m: &Mapping) -> (r: (Vec<KeyCode>, Vec<KeyCode>))
    requires
        m.is_dual(),
    ensures
        r.0@ == m.hold_keys(),
        r.1@ == m.tap_keys(),
{
    match m {
        Mapping::DualRole { hold, tap, .. } => (clone_keys(hold), clone_keys(tap)),
        Mapping::Remap { .. } => {
            proof {
                assert(false);
            }
            (Vec::new(), Vec::new())
        },
    }
}

/// The input and output lists of a chord rule, copied out.
fn remap_parts(m: &Mapping) -> (r: (Vec<KeyCode>, Vec<KeyCode>))
    requires
        m is Remap,
    ensures
        r.0@ == m.remap_input(),
        r.1@ == m.remap_output(),
{
    match m {
        Mapping::Remap { input, output } => (clone_keys(input), clone_keys(output)),
        Mapping::DualRole { .. } => {
            proof {
                assert(false);
            }
            (Vec::new(), Vec::new())
        },
    }
}

/// Appends one key event and mirrors it in the emitted-down set.
#[verifier::rlimit(100)]
fn emit_key(
    out: &mut Vec<OutputEvent>,
    emitted: &mut Vec<KeyCode>,
    Ghost(e0): Ghost<Set<KeyCode>>,
    Ghost(allowed): Ghost<Set<KeyCode>>,
    t: u64,
    k: KeyCode,
    st: KeyState,
)
    requires
        batch_inv(e0, allowed, old(out)@, old(emitted)@),
        st is Press ==> !old(emitted)@.contains(k) && allowed.contains(k),
        st is Release ==> old(emitted)@.contains(k),
    ensures
        batch_inv(e0, allowed, final(out)@, final(emitted)@),
        final(out)@ == old(out)@.push(OutputEvent::Key { time: t, code: k, state: st }),
        st is Press ==> final(emitted)@ == old(emitted)@.push(k),
        st is Release ==> !final(emitted)@.contains(k) && (forall|x: KeyCode|
            x != k ==> final(emitted)@.contains(x) == old(emitted)@.contains(x))
            && final(emitted)@.len() == old(emitted)@.len() - 1,
        (st is Release && old(emitted)@.len() > 0 && old(emitted)@.last() == k)
            ==> final(emitted)@ == old(emitted)@.drop_last(),
        st is Repeat ==> final(emitted)@ == old(emitted)@,
{
    let ghost s0 = out@;
    let ghost em0 = emitted@;
    let e = OutputEvent::Key { time: t, code: k, state: st };
    out.push(e);
    match st {
        KeyState::Press => insert_key(emitted, k),
        KeyState::Release => remove_key(emitted, k),
        KeyState::Repeat => (),
    }
    proof {
        let s1 = out@;
        let em1 = emitted@;
        assert forall|k2: KeyCode, st2: KeyState|
            count_in(s1, k2, st2) == count_in(s0, k2, st2) + (if e.is_key(k2, st2) {
                1int
            } else {
                0int
            }) by {
            lemma_count_push(s0, e, k2, st2);
        }
        assert forall|k2: KeyCode| #[trigger]
            down_count(e0, s1, k2) == b2i(em1.contains(k2)) by {
            assert(down_count(e0, s0, k2) == b2i(em0.contains(k2)));
        }
        assert forall|i: int| 0 <= i < s1.len() implies #[trigger] wf_at(e0, s1, i) by {
            if i < s0.len() {
                assert(wf_at(e0, s0, i));
                assert(s1.take(i) =~= s0.take(i));
                assert(s1[i] == s0[i]);
            } else {
                assert(s1.take(i) =~= s0);
                assert(s1[i] == e);
                assert(down_count(e0, s0, k) == b2i(em0.contains(k)));
            }
        }
        assert(no_empty_syn(s1)) by {
            assert forall|i: int| 0 <= i < s1.len() && (#[trigger] s1[i]) is Syn implies i > 0
                && !(s1[i - 1] is Syn) by {
                assert(s1[i] == s0[i]);
            }
        }
        assert forall|i: int| 0 <= i < s1.len() implies #[trigger] press_ok_at(allowed, s1, i) by {
            if i < s0.len() {
                assert(press_ok_at(allowed, s0, i));
                assert(s1[i] == s0[i]);
            }
        }
    }
}

/// Appends a `SYN_REPORT` closing the events emitted so far.
#[verifier::rlimit(100)]
fn emit_syn(
    out: &mut Vec<OutputEvent>,
    Ghost(e0): Ghost<Set<KeyCode>>,
    Ghost(allowed): Ghost<Set<KeyCode>>,
    Ghost(em): Ghost<Seq<KeyCode>>,
    t: u64,
)
    requires
        batch_inv(e0, allowed, old(out)@, em),
        old(out)@.len() > 0,
        !(old(out)@.last() is Syn),
    ensures
        batch_inv(e0, allowed, final(out)@, em),
        final(out)@ == old(out)@.push(OutputEvent::Syn { time: t }),
{
    let ghost s0 = out@;
    let e = OutputEvent::Syn { time: t };
    out.push(e);
    proof {
        let s1 = out@;
        assert forall|k2: KeyCode| #[trigger] down_count(e0, s1, k2) == b2i(em.contains(k2)) by {
            lemma_count_push(s0, e, k2, KeyState::Press);
            lemma_count_push(s0, e, k2, KeyState::Release);
            assert(down_count(e0, s0, k2) == b2i(em.contains(k2)));
        }
        assert forall|i: int| 0 <= i < s1.len() implies #[trigger] wf_at(e0, s1, i) by {
            if i < s0.len() {
                assert(wf_at(e0, s0, i));
                assert(s1.take(i) =~= s0.take(i));
                assert(s1[i] == s0[i]);
            } else {
                assert(s1[i] == e);
            }
        }
        assert(no_empty_syn(s1)) by {
            assert forall|i: int| 0 <= i < s1.len() && (#[trigger] s1[i]) is Syn implies i > 0
                && !(s1[i - 1] is Syn) by {
                if i < s0.len() {
                    assert(s1[i] == s0[i]);
                } else {
                    assert(s1[i - 1] == s0.last());
                }
            }
        }
        assert forall|i: int| 0 <= i < s1.len() implies #[trigger] press_ok_at(allowed, s1, i) by {
            if i < s0.len() {
                assert(press_ok_at(allowed, s0, i));
                assert(s1[i] == s0[i]);
            }
        }
    }
}

impl Engine {
    /// Creates an engine over a well-formed table, with nothing pressed.
    /// Refuses a table that breaks the rules of `table_wf`.
    pub fn new(mappings: Vec<Mapping>, hold_threshold: u64) -> (r: Option<Engine>)
        ensures
            r is Some <==> table_wf(mappings@),
            r matches Some(e) ==> {
                &&& e.wf()
                &&& e.mappings@ == mappings@
                &&& e.hold_threshold == hold_threshold
                &&& e.physical_down@.len() == 0
                &&& e.emitted_down@.len() == 0
                &&& e.pending_dual is None
                &&& e.active_remaps@.len() == 0
                &&& e.held_duals@.len() == 0
            },
    {
        if table_well_formed(&mappings) {
            let e = Engine {
                mappings,
                hold_threshold,
                physical_down: Vec::new(),
                emitted_down: Vec::new(),
                pending_dual: None,
                active_remaps: Vec::new(),
                held_duals: Vec::new(),
            };
            proof {
                assert forall|i: int|
                    0 <= i < e.mappings@.len() && #[trigger] satisfied(
                        e.mappings@,
                        e.physical_down@,
                        i,
                    ) implies e.active_remaps@.contains(i as usize) by {
                    assert(e.mappings@[i].remap_input().len() > 0);
                    assert(e.physical_down@.contains(e.mappings@[i].remap_input()[0]));
                }
            }
            Some(e)
        } else {
            None
        }
    }

    /// When the armed hold timer is due, if a dual-role key is pending:
    /// its press time plus the hold threshold, saturating at the top.
    pub fn timer_deadline(&self) -> (r: Option<u64>)
        ensures
            r is Some <==> self.pending_dual is Some,
            self.pending_dual matches Some(p) ==> (p.press_time + self.hold_threshold
                <= u64::MAX ==> r == Some((p.press_time + self.hold_threshold) as u64)),
    {
        match &self.pending_dual {
            Some(p) => Some(p.press_time.saturating_add(self.hold_threshold)),
            None => None,
        }
    }

    /// Releases the hold set of the held dual-role key `k` (keeping keys
    /// another mapping still requires) and forgets that it is held.
    #[verifier::rlimit(100)]
    fn release_held(
        &mut self,
        out: &mut Vec<OutputEvent>,
        Ghost(e0): Ghost<Set<KeyCode>>,
        Ghost(allowed): Ghost<Set<KeyCode>>,
        t: u64,
        k: KeyCode,
    )
        requires
            old(self).wf(),
            old(self).held_duals@.contains(k),
            batch_inv(e0, allowed, old(out)@, old(self).emitted_down@),
        ensures
            final(self).wf(),
            batch_inv(e0, allowed, final(out)@, final(self).emitted_down@),
            final(self).mappings@ == old(self).mappings@,
            final(self).hold_threshold == old(self).hold_threshold,
            final(self).physical_down@ == old(self).physical_down@,
            final(self).active_remaps@ == old(self).active_remaps@,
            final(self).pending_dual == old(self).pending_dual,
            !final(self).held_duals@.contains(k),
            forall|x: KeyCode|
                x != k ==> final(self).held_duals@.contains(x) == old(self).held_duals@.contains(
                    x,
                ),
            forall|x: KeyCode|
                final(self).emitted_down@.contains(x) ==> old(self).emitted_down@.contains(x),
            final(self).held_duals@ == old(self).held_duals@.remove_value(k),
            final(out)@ == old(out)@ + retract_seq(
                old(self).mappings@,
                old(self).active_remaps@,
                old(self).held_duals@.remove_value(k),
                dual_hold(old(self).mappings@, k),
                key_set(old(self).emitted_down@),
                t,
            ),
            em_after_sweep(
                final(self).emitted_down@,
                key_set(old(self).emitted_down@),
                old(self).mappings@,
                old(self).active_remaps@,
                old(self).held_duals@.remove_value(k),
                dual_hold(old(self).mappings@, k),
            ),
    {
        let ridx = match dual_role_for(&self.mappings, k) {
            Some(i) => i,
            None => {
                proof {
                    let d = choose|d: int|
                        0 <= d < old(self).held_duals@.len() && old(self).held_duals@[d] == k;
                    assert(is_dual_input(self.mappings@, old(self).held_duals@[d]));
                    assert(false);
                }
                0
            },
        };
        proof {
            lemma_dual_rule_unique(self.mappings@, k, ridx as int);
        }
        let (hold, _tap) = dual_parts(&self.mappings[ridx]);
        let ghost ms0 = self.mappings@;
        let ghost ph0 = self.physical_down@;
        let ghost ac0 = self.active_remaps@;
        let ghost th0 = self.hold_threshold;
        let ghost pd0 = self.pending_dual;
        let ghost hd0 = self.held_duals@;
        let ghost em00 = self.emitted_down@;
        let ghost out0 = out@;
        remove_key(&mut self.held_duals, k);
        let ghost hd1 = self.held_duals@;
        let ghost hseq = hold@;
        proof {
            assert(hd1 == hd0.remove_value(k));
            assert(em_after_sweep(self.emitted_down@, key_set(em00), ms0, ac0, hd1, hseq.take(0)));
            assert(out@ =~= out0 + retract_seq(ms0, ac0, hd1, hseq.take(0), key_set(em00), t));
        }
        proof {
            assert forall|j2: int| 0 <= j2 < ac0.len() implies (#[trigger] ac0[j2] as int)
                < ms0.len() by {
                assert(satisfied(ms0, ph0, ac0[j2] as int));
            }
            assert forall|d2: int| 0 <= d2 < hd1.len() implies is_dual_input(
                ms0,
                #[trigger] hd1[d2],
            ) && ph0.contains(hd1[d2]) by {
                assert(hd1.contains(hd1[d2]));
                assert(hd0.contains(hd1[d2]));
                let d3 = choose|d3: int| 0 <= d3 < hd0.len() && hd0[d3] == hd1[d2];
                assert(is_dual_input(ms0, hd0[d3]));
            }
            assert forall|j3: int|
                0 <= j3 < self.emitted_down@.len() implies (justified_key(
                ms0,
                ph0,
                ac0,
                hd1,
                #[trigger] self.emitted_down@[j3],
            ) || (exists|c2: int|
                #![trigger hseq[c2]]
                0 <= c2 < hseq.len() && hseq[c2] == self.emitted_down@[j3])) by {
                let x = self.emitted_down@[j3];
                assert(justified_key(ms0, ph0, ac0, hd0, x));
                if !ph0.contains(x) {
                    if exists|j4: int|
                        #![trigger ac0[j4]]
                        0 <= j4 < ac0.len() && (ac0[j4] as int) < ms0.len() && ms0[ac0[
                            j4
                        ] as int].remap_output().contains(x) {
                    } else {
                        let (d4, i4) = choose|d4: int, i4: int|
                            #![trigger hd0[d4], ms0[i4]]
                            0 <= d4 < hd0.len() && 0 <= i4 < ms0.len() && ms0[i4].is_dual()
                                && ms0[i4].dual_input() == hd0[d4] && ms0[
                                i4
                            ].hold_keys().contains(x);
                        if hd0[d4] == k {
                            lemma_dual_rule_unique(ms0, k, i4);
                            let c2 = choose|c2: int|
                                0 <= c2 < hseq.len() && hseq[c2] == x;
                            assert(hseq[c2] == x);
                        } else {
                            assert(hd1.contains(hd0[d4]));
                            let d5 = choose|d5: int| 0 <= d5 < hd1.len() && hd1[d5] == hd0[d4];
                            assert(0 <= d5 < hd1.len() && 0 <= i4 < ms0.len() && ms0[
                                i4
                            ].is_dual() && ms0[i4].dual_input() == hd1[d5] && ms0[
                                i4
                            ].hold_keys().contains(x));
                        }
                    }
                }
            }
        }
        let mut c: usize = 0;
        while c < hold.len()
            invariant
                batch_inv(e0, allowed, out@, self.emitted_down@),
                0 <= c <= hseq.len(),
                hold@ == hseq,
                self.mappings@ == ms0,
                self.physical_down@ == ph0,
                self.active_remaps@ == ac0,
                self.held_duals@ == hd1,
                self.hold_threshold == th0,
                self.pending_dual == pd0,
                table_wf(ms0),
                forall|j2: int| 0 <= j2 < ac0.len() ==> (#[trigger] ac0[j2] as int) < ms0.len(),
                active_sound(ms0, ph0, ac0),
                forall|d2: int|
                    0 <= d2 < hd1.len() ==> is_dual_input(ms0, #[trigger] hd1[d2])
                        && ph0.contains(hd1[d2]),
                outputs_emitted(ms0, ac0, self.emitted_down@),
                em_dual_free(ms0, self.emitted_down@),
                forall|x: KeyCode|
                    self.emitted_down@.contains(x) ==> old(self).emitted_down@.contains(x),
                em00 == old(self).emitted_down@,
                out@ == out0 + retract_seq(ms0, ac0, hd1, hseq.take(c as int), key_set(em00), t),
                em_after_sweep(
                    self.emitted_down@,
                    key_set(em00),
                    ms0,
                    ac0,
                    hd1,
                    hseq.take(c as int),
                ),
                forall|j3: int|
                    0 <= j3 < self.emitted_down@.len() ==> (justified_key(
                        ms0,
                        ph0,
                        ac0,
                        hd1,
                        #[trigger] self.emitted_down@[j3],
                    ) || (exists|c2: int|
                        #![trigger hseq[c2]]
                        c <= c2 < hseq.len() && hseq[c2] == self.emitted_down@[j3])),
            decreases hseq.len() - c,
        {
            let hk = hold[c];
            proof {
                assert(hseq.take(c + 1).drop_last() =~= hseq.take(c as int));
                assert(hseq.take(c + 1).last() == hk);
                assert(hseq.take(c + 1) =~= hseq.take(c as int).push(hk));
                assert(em_after_sweep(
                    self.emitted_down@,
                    key_set(em00),
                    ms0,
                    ac0,
                    hd1,
                    hseq.take(c as int),
                ));
                assert(self.emitted_down@.contains(hk) == (key_set(em00).contains(hk) && !(
                hseq.take(c as int).contains(hk) && !required_output(ms0, ac0, hd1, hk))));
            }
            let down = contains_key(&self.emitted_down, hk);
            let needed = required_elsewhere(&self.mappings, &self.active_remaps, &self.held_duals, hk);
            if down && !needed {
                let ghost emprev = self.emitted_down@;
                emit_key(
                    out,
                    &mut self.emitted_down,
                    Ghost(e0),
                    Ghost(allowed),
                    t,
                    hk,
                    KeyState::Release,
                );
                proof {
                    let emn = self.emitted_down@;
                    assert forall|j3: int|
                        0 <= j3 < emn.len() implies (justified_key(
                        ms0,
                        ph0,
                        ac0,
                        hd1,
                        #[trigger] emn[j3],
                    ) || (exists|c2: int|
                        #![trigger hseq[c2]]
                        c + 1 <= c2 < hseq.len() && hseq[c2] == emn[j3])) && !is_dual_input(
                        ms0,
                        emn[j3],
                    ) && old(self).emitted_down@.contains(emn[j3]) by {
                        let x = emn[j3];
                        assert(emn.contains(x));
                        assert(x != hk);
                        assert(emprev.contains(x));
                        let j4 = choose|j4: int| 0 <= j4 < emprev.len() && emprev[j4] == x;
                        assert(emprev[j4] == x);
                        if !justified_key(ms0, ph0, ac0, hd1, x) {
                            let c2 = choose|c2: int|
                                #![trigger hseq[c2]]
                                c <= c2 < hseq.len() && hseq[c2] == x;
                            assert(c2 != c) by {
                                if c2 == c {
                                    assert(hseq[c as int] == hk);
                                }
                            }
                        }
                    }
                    assert forall|j2: int|
                        0 <= j2 < ac0.len() implies seq_subset(
                        ms0[(#[trigger] ac0[j2]) as int].remap_output(),
                        self.emitted_down@,
                    ) by {
                        assert(seq_subset(ms0[ac0[j2] as int].remap_output(), emprev));
                        assert forall|b2: int|
                            0 <= b2 < ms0[ac0[j2] as int].remap_output().len() implies
                            self.emitted_down@.contains(
                            #[trigger] ms0[ac0[j2] as int].remap_output()[b2],
                        ) by {
                            let y = ms0[ac0[j2] as int].remap_output()[b2];
                            assert(emprev.contains(y));
                            assert(y != hk) by {
                                if y == hk {
                                    assert(ms0[ac0[j2] as int].remap_output().contains(hk)) by {
                                        assert(ms0[ac0[j2] as int].remap_output()[b2] == hk);
                                    }
                                    assert(required_output(ms0, ac0, hd1, hk)) by {
                                        assert(0 <= j2 < ac0.len() && (ac0[j2] as int)
                                            < ms0.len() && ms0[ac0[
                                            j2
                                        ] as int].remap_output().contains(hk));
                                    }
                                }
                            }
                        }
                    }
                    let ev = OutputEvent::Key { time: t, code: hk, state: KeyState::Release };
                    assert(key_set(em00).contains(hk) && !required_output(ms0, ac0, hd1, hk)
                        && !hseq.take(c as int).contains(hk));
                    assert(retract_seq(ms0, ac0, hd1, hseq.take(c + 1), key_set(em00), t)
                        == retract_seq(ms0, ac0, hd1, hseq.take(c as int), key_set(em00), t).push(
                        ev,
                    ));
                    assert(out@ =~= out0 + retract_seq(
                        ms0,
                        ac0,
                        hd1,
                        hseq.take(c + 1),
                        key_set(em00),
                        t,
                    ));
                    assert(em_after_sweep(
                        self.emitted_down@,
                        key_set(em00),
                        ms0,
                        ac0,
                        hd1,
                        hseq.take(c + 1),
                    )) by {
                        assert forall|x: KeyCode|
                            #[trigger] self.emitted_down@.contains(x) == (key_set(em00).contains(
                                x,
                            ) && !(hseq.take(c + 1).contains(x) && !required_output(
                                ms0,
                                ac0,
                                hd1,
                                x,
                            ))) by {
                            lemma_push_contains(hseq.take(c as int), hk, x);
                            assert(emprev.contains(x) == (key_set(em00).contains(x) && !(
                            hseq.take(c as int).contains(x) && !required_output(
                                ms0,
                                ac0,
                                hd1,
                                x,
                            ))));
                            if x != hk {
                                assert(self.emitted_down@.contains(x) == emprev.contains(x));
                            }
                        }
                    }
                }
            } else {
                proof {
                    assert forall|j3: int|
                        0 <= j3 < self.emitted_down@.len() implies justified_key(
                        ms0,
                        ph0,
                        ac0,
                        hd1,
                        #[trigger] self.emitted_down@[j3],
                    ) || (exists|c2: int|
                        #![trigger hseq[c2]]
                        c + 1 <= c2 < hseq.len() && hseq[c2] == self.emitted_down@[j3]) by {
                        let x = self.emitted_down@[j3];
                        if !justified_key(ms0, ph0, ac0, hd1, x) {
                            let c2 = choose|c2: int|
                                #![trigger hseq[c2]]
                                c <= c2 < hseq.len() && hseq[c2] == x;
                            if c2 == c {
                                assert(x == hk);
                                assert(self.emitted_down@.contains(x)) by {
                                    assert(self.emitted_down@[j3] == x);
                                }
                                assert(required_output(ms0, ac0, hd1, hk));
                            }
                        }
                    }
                    assert(!(key_set(em00).contains(hk) && !required_output(ms0, ac0, hd1, hk)
                        && !hseq.take(c as int).contains(hk))) by {
                        if key_set(em00).contains(hk) && !required_output(ms0, ac0, hd1, hk)
                            && !hseq.take(c as int).contains(hk) {
                            assert(self.emitted_down@.contains(hk));
                        }
                    }
                    assert(retract_seq(ms0, ac0, hd1, hseq.take(c + 1), key_set(em00), t)
                        == retract_seq(ms0, ac0, hd1, hseq.take(c as int), key_set(em00), t));
                    assert(em_after_sweep(
                        self.emitted_down@,
                        key_set(em00),
                        ms0,
                        ac0,
                        hd1,
                        hseq.take(c + 1),
                    )) by {
                        assert forall|x: KeyCode|
                            #[trigger] self.emitted_down@.contains(x) == (key_set(em00).contains(
                                x,
                            ) && !(hseq.take(c + 1).contains(x) && !required_output(
                                ms0,
                                ac0,
                                hd1,
                                x,
                            ))) by {
                            lemma_push_contains(hseq.take(c as int), hk, x);
                            assert(self.emitted_down@.contains(x) == (key_set(em00).contains(x)
                                && !(hseq.take(c as int).contains(x) && !required_output(
                                ms0,
                                ac0,
                                hd1,
                                x,
                            ))));
                        }
                    }
                }
            }
            c += 1;
        }
        proof {
            assert(hseq.take(hseq.len() as int) =~= hseq);
            assert forall|j3: int|
                0 <= j3 < self.emitted_down@.len() implies justified_key(
                ms0,
                ph0,
                ac0,
                hd1,
                #[trigger] self.emitted_down@[j3],
            ) by {
                let x = self.emitted_down@[j3];
                if !justified_key(ms0, ph0, ac0, hd1, x) {
                    let c2 = choose|c2: int|
                        #![trigger hseq[c2]]
                        hseq.len() <= c2 < hseq.len() && hseq[c2] == x;
                    assert(false);
                }
            }
        }
    }

    /// Releases every key still reported down, closes the frame, and
    /// clears the whole state: what the engine does on teardown.
    #[verifier::rlimit(100)]
    pub fn shutdown(&mut self, t: u64) -> (out: Vec<OutputEvent>)
        requires
            old(self).wf(),
        ensures
            final(self).wf(),
            final(self).mappings@ == old(self).mappings@,
            final(self).hold_threshold == old(self).hold_threshold,
            final(self).emitted_down@.len() == 0,
            final(self).physical_down@.len() == 0,
            final(self).pending_dual is None,
            out@ == framed(release_all(old(self).emitted_down@, t), t),
            well_formed_batch(key_set(old(self).emitted_down@), out@),
            forall|k: KeyCode|
                #[trigger] down_count(key_set(old(self).emitted_down@), out@, k) == 0,
            batch_framed(out@),
    {
        let mut out: Vec<OutputEvent> = Vec::new();
        let ghost e0 = key_set(self.emitted_down@);
        let ghost allowed = Set::<KeyCode>::empty();
        let ghost em0 = self.emitted_down@;
        proof {
            assert(out@.len() == 0);
            assert forall|k2: KeyCode| #[trigger]
                down_count(e0, out@, k2) == b2i(em0.contains(k2)) by {}
        }
        let ghost msg = self.mappings@;
        let ghost thg = self.hold_threshold;
        while self.emitted_down.len() > 0
            invariant
                batch_inv(e0, allowed, out@, self.emitted_down@),
                self.mappings@ == msg,
                self.hold_threshold == thg,
                table_wf(msg),
                forall|x: KeyCode| self.emitted_down@.contains(x) ==> em0.contains(x),
                out@ + release_all(self.emitted_down@, t) == release_all(em0, t),
                forall|i: int|
                    0 <= i < out@.len() ==> !((#[trigger] out@[i]) is Syn),
            decreases self.emitted_down@.len(),
        {
            let n = self.emitted_down.len();
            let k = self.emitted_down[n - 1];
            let ghost emprev = self.emitted_down@;
            proof {
                assert(emprev.contains(k)) by { assert(emprev[n - 1] == k) };
                assert(emprev.last() == k);
            }
            emit_key(
                &mut out,
                &mut self.emitted_down,
                Ghost(e0),
                Ghost(allowed),
                t,
                k,
                KeyState::Release,
            );
            proof {
                assert(self.emitted_down@ == emprev.drop_last());
                let ev = OutputEvent::Key { time: t, code: k, state: KeyState::Release };
                assert(release_all(emprev, t) == seq![ev] + release_all(emprev.drop_last(), t));
                assert(out@ + release_all(self.emitted_down@, t) =~= release_all(em0, t));
                assert forall|x: KeyCode|
                    self.emitted_down@.contains(x) implies em0.contains(x) by {
                    assert(emprev.contains(x));
                }
                assert forall|i: int|
                    0 <= i < out@.len() implies !((#[trigger] out@[i]) is Syn) by {}
            }
        }
        proof {
            assert(release_all(self.emitted_down@, t) =~= Seq::<OutputEvent>::empty());
            assert(out@ =~= release_all(em0, t));
        }
        if out.len() > 0 {
            proof {
                assert(!(out@.last() is Syn)) by {
                    assert(!((out@[out@.len() - 1]) is Syn));
                }
            }
            emit_syn(&mut out, Ghost(e0), Ghost(allowed), Ghost(self.emitted_down@), t);
        }
        self.physical_down = Vec::new();
        self.active_remaps = Vec::new();
        self.held_duals = Vec::new();
        self.pending_dual = None;
        proof {
            assert forall|i: int|
                0 <= i < self.mappings@.len() && #[trigger] satisfied(
                    self.mappings@,
                    self.physical_down@,
                    i,
                ) implies self.active_remaps@.contains(i as usize) by {
                assert(self.mappings@[i].remap_input().len() > 0);
                assert(self.physical_down@.contains(self.mappings@[i].remap_input()[0]));
            }
            assert forall|k2: KeyCode| #[trigger]
                down_count(e0, out@, k2) == 0 by {
                assert(down_count(e0, out@, k2) == b2i(self.emitted_down@.contains(k2)));
            }
        }
        out
    }

    /// One transition of the engine: processes one input event or one hold
    /// timer expiry and returns the batch of output events, closed by a
    /// `SYN_REPORT` whenever it is nonempty.
    #[verifier::rlimit(100)]
    pub fn on_event(&mut self, stim: Stimulus) -> (out: Vec<OutputEvent>)
        requires
            old(self).wf(),
        ensures
            final(self).wf(),
            final(self).mappings@ == old(self).mappings@,
            final(self).hold_threshold == old(self).hold_threshold,
            well_formed_batch(key_set(old(self).emitted_down@), out@),
            forall|x: KeyCode|
                #[trigger] down_count(key_set(old(self).emitted_down@), out@, x) == b2i(
                    final(self).emitted_down@.contains(x),
                ),
            batch_framed(out@),
            presses_from(out@, allowed_for(old(self).mappings@, stim)),
            stim matches Stimulus::Key(e) ==> (e.state is Press ==> (forall|x: KeyCode|
                final(self).physical_down@.contains(x) == (old(self).physical_down@.contains(x)
                    || x == e.code))),
            stim matches Stimulus::Key(e) ==> (e.state is Release ==> (forall|x: KeyCode|
                final(self).physical_down@.contains(x) == (old(self).physical_down@.contains(x)
                    && x != e.code))),
            stim matches Stimulus::Key(e) ==> (e.state is Repeat ==> (final(self).physical_down@
                == old(self).physical_down@ && final(self).emitted_down@ == old(self).emitted_down@ && final(self).pending_dual == old(self).pending_dual)),
            stim is Timer ==> final(self).physical_down@ == old(self).physical_down@,
            final(self).pending_dual matches Some(p) ==> match stim {
                Stimulus::Key(e) => (e.state is Press && e.code == p.code && p.press_time
                    == e.time && is_dual_input(old(self).mappings@, p.code)) || (old(self).pending_dual == Some(p) && (e.state is Repeat || (e.state is Release
                    && e.code != p.code))),
                Stimulus::Timer { .. } => false,
            },
            old(self).pending_dual matches Some(q) ==> (stim matches Stimulus::Key(e) ==> (
            e.state is Press ==> final(self).held_duals@.contains(q.code))),
            old(self).pending_dual matches Some(q) ==> (stim matches Stimulus::Timer { time }
                ==> (final(self).pending_dual is None && final(self).held_duals@ == old(self).held_duals@.push(q.code) && out@ == framed(
                press_expansion(
                    dual_hold(old(self).mappings@, q.code),
                    key_set(old(self).emitted_down@),
                    time,
                ),
                time,
            ))),
            old(self).pending_dual is None && stim is Timer ==> (out@
                == Seq::<OutputEvent>::empty() && final(self).emitted_down@ == old(self).emitted_down@),
            old(self).pending_dual matches Some(q) ==> (stim matches Stimulus::Key(e) ==> (
            e.state is Release && e.code == q.code ==> (final(self).pending_dual is None
                && final(self).emitted_down@ == old(self).emitted_down@ && out@
                == tap_expansion(
                dual_tap(old(self).mappings@, q.code),
                key_set(old(self).emitted_down@),
                e.time,
            )))),
            stim matches Stimulus::Key(e) ==> (e.state is Press && old(self).pending_dual
                is None && is_dual_input(old(self).mappings@, e.code) && !old(self).held_duals@.contains(e.code) ==> (final(self).pending_dual == Some(
                PendingDual { code: e.code, press_time: e.time },
            ) && out@ == Seq::<OutputEvent>::empty() && final(self).emitted_down@ == old(self).emitted_down@)),
            old(self).pending_dual matches Some(q) ==> (stim matches Stimulus::Key(e) ==> (
            e.state is Press && is_dual_input(old(self).mappings@, e.code) && e.code != q.code
                && !old(self).held_duals@.contains(e.code) ==> (final(self).pending_dual
                == Some(PendingDual { code: e.code, press_time: e.time }) && out@ == framed(
                press_expansion(
                    dual_hold(old(self).mappings@, q.code),
                    key_set(old(self).emitted_down@),
                    e.time,
                ),
                e.time,
            )))),
            old(self).pending_dual matches Some(q) ==> (stim matches Stimulus::Key(e) ==> (
            e.state is Press && !is_dual_input(old(self).mappings@, e.code)
                && !in_some_remap_input(old(self).mappings@, e.code) && !old(self).emitted_down@.contains(e.code) && !dual_hold(
                old(self).mappings@,
                q.code,
            ).contains(e.code) ==> out@ == press_expansion(
                dual_hold(old(self).mappings@, q.code),
                key_set(old(self).emitted_down@),
                e.time,
            ).push(OutputEvent::Key { time: e.time, code: e.code, state: KeyState::Press }).push(
                OutputEvent::Syn { time: e.time },
            ))),
            stim matches Stimulus::Key(e) ==> (e.state is Release && old(self).held_duals@.contains(e.code) ==> out@ == framed(
                retract_seq(
                    old(self).mappings@,
                    old(self).active_remaps@,
                    old(self).held_duals@.remove_value(e.code),
                    dual_hold(old(self).mappings@, e.code),
                    key_set(old(self).emitted_down@),
                    e.time,
                ),
                e.time,
            )),
            stim matches Stimulus::Key(e) ==> (e.state is Press && old(self).pending_dual
                is None && !is_dual_input(old(self).mappings@, e.code) && !old(self).physical_down@.contains(e.code) && !old(self).emitted_down@.contains(e.code) && (
            forall|i: int|
                0 <= i < old(self).mappings@.len() ==> #[trigger] satisfied(
                    old(self).mappings@,
                    old(self).physical_down@.push(e.code),
                    i,
                ) == satisfied(old(self).mappings@, old(self).physical_down@, i)) ==> out@
                == seq![
                OutputEvent::Key { time: e.time, code: e.code, state: KeyState::Press },
                OutputEvent::Syn { time: e.time },
            ]),
            stim matches Stimulus::Key(e) ==> (forall|r: int|
                #![trigger satisfied(old(self).mappings@, old(self).physical_down@.push(e.code), r)]
                (e.state is Press && old(self).pending_dual is None && !is_dual_input(
                    old(self).mappings@,
                    e.code,
                ) && !old(self).physical_down@.contains(e.code) && 0 <= r < old(self).mappings@.len()
                    && !satisfied(old(self).mappings@, old(self).physical_down@, r) && satisfied(
                    old(self).mappings@,
                    old(self).physical_down@.push(e.code),
                    r,
                ) && (forall|i: int|
                    0 <= i < old(self).mappings@.len() && i != r ==> #[trigger] satisfied(
                        old(self).mappings@,
                        old(self).physical_down@.push(e.code),
                        i,
                    ) == satisfied(old(self).mappings@, old(self).physical_down@, i))) ==> out@
                    == framed(
                    chord_on_batch(
                        old(self).mappings@,
                        old(self).active_remaps@.push(r as usize),
                        old(self).held_duals@,
                        r,
                        key_set(old(self).emitted_down@),
                        e.time,
                    ),
                    e.time,
                )),
            stim matches Stimulus::Key(e) ==> (forall|r: int|
                #![trigger satisfied(old(self).mappings@, old(self).physical_down@.remove_value(e.code), r)]
                (e.state is Release && (match old(self).pending_dual {
                    Some(p) => p.code != e.code,
                    None => true,
                }) && !old(self).held_duals@.contains(e.code) && !old(self).emitted_down@.contains(e.code) && 0 <= r < old(self).mappings@.len()
                    && satisfied(old(self).mappings@, old(self).physical_down@, r) && !satisfied(
                    old(self).mappings@,
                    old(self).physical_down@.remove_value(e.code),
                    r,
                ) && (forall|i: int|
                    0 <= i < old(self).mappings@.len() && i != r ==> #[trigger] satisfied(
                        old(self).mappings@,
                        old(self).physical_down@.remove_value(e.code),
                        i,
                    ) == satisfied(old(self).mappings@, old(self).physical_down@, i))) ==> out@
                    == framed(
                    retract_seq(
                        old(self).mappings@,
                        old(self).active_remaps@.remove_value(r as usize),
                        old(self).held_duals@,
                        old(self).mappings@[r].remap_output(),
                        key_set(old(self).emitted_down@),
                        e.time,
                    ),
                    e.time,
                )),
            stim matches Stimulus::Key(e) ==> (e.state is Press && old(self).pending_dual
                is None && !is_dual_input(old(self).mappings@, e.code) && !in_some_remap_input(
                old(self).mappings@,
                e.code,
            ) && !old(self).emitted_down@.contains(e.code) ==> (out@ == seq![
                OutputEvent::Key { time: e.time, code: e.code, state: KeyState::Press },
                OutputEvent::Syn { time: e.time },
            ] && final(self).emitted_down@ == old(self).emitted_down@.push(e.code))),
            stim matches Stimulus::Key(e) ==> (e.state is Release && !is_dual_input(
                old(self).mappings@,
                e.code,
            ) && !in_some_remap_input(old(self).mappings@, e.code) && old(self).emitted_down@.contains(e.code) && !required_output(
                old(self).mappings@,
                old(self).active_remaps@,
                old(self).held_duals@,
                e.code,
            ) ==> (out@ == seq![
                OutputEvent::Key { time: e.time, code: e.code, state: KeyState::Release },
                OutputEvent::Syn { time: e.time },
            ] && !final(self).emitted_down@.contains(e.code) && (forall|x: KeyCode|
                x != e.code ==> final(self).emitted_down@.contains(x) == old(self).emitted_down@.contains(x)))),
            stim matches Stimulus::Key(e) ==> (e.state is Release && !is_dual_input(
                old(self).mappings@,
                e.code,
            ) && !in_some_remap_input(old(self).mappings@, e.code) && !old(self).emitted_down@.contains(e.code) ==> (out@ == Seq::<OutputEvent>::empty() && final(self).emitted_down@ == old(self).emitted_down@)),
            stim matches Stimulus::Key(e) ==> (e.state is Repeat && plain_key(
                old(self).mappings@,
                e.code,
            ) ==> out@ == seq![
                OutputEvent::Key { time: e.time, code: e.code, state: KeyState::Repeat },
                OutputEvent::Syn { time: e.time },
            ]),
            stim matches Stimulus::Key(e) ==> (e.state is Repeat && !plain_key(
                old(self).mappings@,
                e.code,
            ) ==> out@ == Seq::<OutputEvent>::empty()),
    {
        let mut out: Vec<OutputEvent> = Vec::new();
        let ghost e0 = key_set(self.emitted_down@);
        let ghost allowed = allowed_for(self.mappings@, stim);
        proof {
            assert(out@.len() == 0);
            assert forall|k2: KeyCode| #[trigger]
                down_count(e0, out@, k2) == b2i(self.emitted_down@.contains(k2)) by {}
            assert forall|x: KeyCode| rule_output_key(self.mappings@, x) implies
                allowed.contains(x) by {}
        }
        let t = match stim {
            Stimulus::Key(e) => e.time,
            Stimulus::Timer { time } => time,
        };
        match stim {
            Stimulus::Key(e) => {
                match e.state {
                    KeyState::Press => {
                        proof {
                            assert(allowed.contains(e.code));
                        }
                        self.handle_press(&mut out, Ghost(e0), Ghost(allowed), e.time, e.code);
                    },
                    KeyState::Release => {
                        self.handle_release(&mut out, Ghost(e0), Ghost(allowed), e.time, e.code);
                    },
                    KeyState::Repeat => {
                        if key_is_plain(&self.mappings, e.code) {
                            emit_key(
                                &mut out,
                                &mut self.emitted_down,
                                Ghost(e0),
                                Ghost(allowed),
                                e.time,
                                e.code,
                                KeyState::Repeat,
                            );
                        }
                    },
                }
            },
            Stimulus::Timer { time } => {
                if self.pending_dual.is_some() {
                    self.resolve_hold(&mut out, Ghost(e0), Ghost(allowed), time);
                    proof {
                        lemma_press_expansion_last(
                            dual_hold(old(self).mappings@, old(self).pending_dual->Some_0.code),
                            key_set(old(self).emitted_down@),
                            time,
                        );
                    }
                }
            },
        }
        proof {
            match stim {
                Stimulus::Key(e) => {
                    if e.state is Release {
                        match old(self).pending_dual {
                            Some(q) => {
                                if e.code == q.code {
                                    lemma_tap_expansion_last(
                                        dual_tap(old(self).mappings@, q.code),
                                        key_set(old(self).emitted_down@),
                                        e.time,
                                    );
                                    assert(out@ =~= tap_expansion(
                                        dual_tap(old(self).mappings@, q.code),
                                        key_set(old(self).emitted_down@),
                                        e.time,
                                    ));
                                }
                            },
                            None => {},
                        }
                        if old(self).held_duals@.contains(e.code) {
                            let rs = retract_seq(
                                old(self).mappings@,
                                old(self).active_remaps@,
                                old(self).held_duals@.remove_value(e.code),
                                dual_hold(old(self).mappings@, e.code),
                                key_set(old(self).emitted_down@),
                                e.time,
                            );
                            lemma_retract_seq_last(
                                old(self).mappings@,
                                old(self).active_remaps@,
                                old(self).held_duals@.remove_value(e.code),
                                dual_hold(old(self).mappings@, e.code),
                                key_set(old(self).emitted_down@),
                                e.time,
                            );
                            assert(out@ =~= rs);
                        }
                        {
                            let msg = old(self).mappings@;
                            let phg = old(self).physical_down@;
                            let okp = match old(self).pending_dual {
                                Some(p) => p.code != e.code,
                                None => true,
                            };
                            if okp && !old(self).held_duals@.contains(e.code) && !old(self).emitted_down@.contains(e.code) {
                                assert forall|r: int|
                                    0 <= r < msg.len() && satisfied(msg, phg, r)
                                        && !(#[trigger] satisfied(
                                        msg,
                                        phg.remove_value(e.code),
                                        r,
                                    )) && (forall|i: int|
                                        0 <= i < msg.len() && i != r ==> #[trigger] satisfied(
                                            msg,
                                            phg.remove_value(e.code),
                                            i,
                                        ) == satisfied(msg, phg, i)) implies out@ == retract_seq(
                                    msg,
                                    old(self).active_remaps@.remove_value(r as usize),
                                    old(self).held_duals@,
                                    msg[r].remap_output(),
                                    key_set(old(self).emitted_down@),
                                    e.time,
                                ) && (out@.len() > 0 ==> !(out@.last() is Syn)) by {
                                    let rs2 = retract_seq(
                                        msg,
                                        old(self).active_remaps@.remove_value(r as usize),
                                        old(self).held_duals@,
                                        msg[r].remap_output(),
                                        key_set(old(self).emitted_down@),
                                        e.time,
                                    );
                                    assert(out@ =~= rs2);
                                    lemma_retract_seq_last(
                                        msg,
                                        old(self).active_remaps@.remove_value(r as usize),
                                        old(self).held_duals@,
                                        msg[r].remap_output(),
                                        key_set(old(self).emitted_down@),
                                        e.time,
                                    );
                                }
                            }
                        }
                    }
                    if e.state is Press {
                        match old(self).pending_dual {
                            Some(q) => {
                                let exp = press_expansion(
                                    dual_hold(old(self).mappings@, q.code),
                                    key_set(old(self).emitted_down@),
                                    e.time,
                                );
                                lemma_press_expansion_last(
                                    dual_hold(old(self).mappings@, q.code),
                                    key_set(old(self).emitted_down@),
                                    e.time,
                                );
                                if is_dual_input(old(self).mappings@, e.code) && e.code != q.code
                                    && !old(self).held_duals@.contains(e.code) {
                                    assert(out@ =~= exp);
                                }
                                if !is_dual_input(old(self).mappings@, e.code)
                                    && !in_some_remap_input(old(self).mappings@, e.code) && !old(self).emitted_down@.contains(e.code) && !dual_hold(
                                    old(self).mappings@,
                                    q.code,
                                ).contains(e.code) {
                                    assert(out@ =~= exp.push(
                                        OutputEvent::Key {
                                            time: e.time,
                                            code: e.code,
                                            state: KeyState::Press,
                                        },
                                    ));
                                }
                            },
                            None => {
                                let msg = old(self).mappings@;
                                let phg = old(self).physical_down@;
                                if !is_dual_input(msg, e.code) && !phg.contains(e.code) {
                                    assert forall|r: int|
                                        0 <= r < msg.len() && !satisfied(msg, phg, r)
                                            && #[trigger] satisfied(
                                            msg,
                                            phg.push(e.code),
                                            r,
                                        ) && (forall|i: int|
                                            0 <= i < msg.len() && i != r ==> #[trigger] satisfied(
                                                msg,
                                                phg.push(e.code),
                                                i,
                                            ) == satisfied(msg, phg, i)) implies out@
                                        == chord_on_batch(
                                        msg,
                                        old(self).active_remaps@.push(r as usize),
                                        old(self).held_duals@,
                                        r,
                                        key_set(old(self).emitted_down@),
                                        e.time,
                                    ) && (out@.len() > 0 ==> !(out@.last() is Syn)) by {
                                        let cb = chord_on_batch(
                                            msg,
                                            old(self).active_remaps@.push(r as usize),
                                            old(self).held_duals@,
                                            r,
                                            key_set(old(self).emitted_down@),
                                            e.time,
                                        );
                                        assert(out@ =~= cb);
                                        let rs = retract_seq(
                                            msg,
                                            old(self).active_remaps@.push(r as usize),
                                            old(self).held_duals@,
                                            msg[r].remap_input(),
                                            key_set(old(self).emitted_down@),
                                            e.time,
                                        );
                                        let pe = press_expansion(
                                            msg[r].remap_output(),
                                            retracted_em(
                                                msg,
                                                old(self).active_remaps@.push(r as usize),
                                                old(self).held_duals@,
                                                msg[r].remap_input(),
                                                key_set(old(self).emitted_down@),
                                            ),
                                            e.time,
                                        );
                                        lemma_retract_seq_last(
                                            msg,
                                            old(self).active_remaps@.push(r as usize),
                                            old(self).held_duals@,
                                            msg[r].remap_input(),
                                            key_set(old(self).emitted_down@),
                                            e.time,
                                        );
                                        lemma_press_expansion_last(
                                            msg[r].remap_output(),
                                            retracted_em(
                                                msg,
                                                old(self).active_remaps@.push(r as usize),
                                                old(self).held_duals@,
                                                msg[r].remap_input(),
                                                key_set(old(self).emitted_down@),
                                            ),
                                            e.time,
                                        );
                                        if cb.len() > 0 {
                                            if pe.len() > 0 {
                                                assert(cb.last() == pe.last());
                                            } else {
                                                assert(cb =~= rs);
                                            }
                                        }
                                    }
                                }
                            },
                        }
                    }
                },
                Stimulus::Timer { .. } => {},
            }
        }
        if out.len() > 0 {
            let last_is_syn = matches!(out[out.len() - 1], OutputEvent::Syn { .. });
            if !last_is_syn {
                emit_syn(&mut out, Ghost(e0), Ghost(allowed), Ghost(self.emitted_down@), t);
            }
        }
        proof {
            if out@.len() > 0 {
                assert(out@.last() is Syn);
            }
        }
        out
    }

    /// One press of key `k`: resolves a pending dual-role key as hold,
    /// then either starts a new pending dual-role decision or recomputes
    /// the chords and passes the key through.
    #[verifier::rlimit(100)]
    fn handle_press(
        &mut self,
        out: &mut Vec<OutputEvent>,
        Ghost(e0): Ghost<Set<KeyCode>>,
        Ghost(allowed): Ghost<Set<KeyCode>>,
        t: u64,
        k: KeyCode,
    )
        requires
            old(self).wf(),
            batch_inv(e0, allowed, old(out)@, old(self).emitted_down@),
            forall|x: KeyCode| rule_output_key(old(self).mappings@, x) ==> allowed.contains(x),
            allowed.contains(k),
        ensures
            final(self).wf(),
            batch_inv(e0, allowed, final(out)@, final(self).emitted_down@),
            final(self).mappings@ == old(self).mappings@,
            final(self).hold_threshold == old(self).hold_threshold,
            forall|x: KeyCode|
                final(self).physical_down@.contains(x) == (old(self).physical_down@.contains(x)
                    || x == k),
            final(self).pending_dual matches Some(p) ==> (p.code == k && p.press_time == t
                && is_dual_input(old(self).mappings@, k)),
            old(self).pending_dual matches Some(q) ==> final(self).held_duals@.contains(q.code),
            (old(self).pending_dual is None && is_dual_input(old(self).mappings@, k) && !old(self).held_duals@.contains(k)) ==> (final(self).pending_dual == Some(
                PendingDual { code: k, press_time: t },
            ) && final(out)@ == old(out)@ && final(self).emitted_down@ == old(self).emitted_down@),
            (old(self).pending_dual is None && !is_dual_input(old(self).mappings@, k)
                && !in_some_remap_input(old(self).mappings@, k) && !old(self).emitted_down@.contains(k)) ==> (final(out)@ == old(out)@.push(
                OutputEvent::Key { time: t, code: k, state: KeyState::Press },
            ) && final(self).emitted_down@ == old(self).emitted_down@.push(k)),
            old(self).pending_dual matches Some(q) ==> (is_dual_input(old(self).mappings@, k)
                && k != q.code && !old(self).held_duals@.contains(k) ==> (final(self).pending_dual == Some(PendingDual { code: k, press_time: t }) && final(out)@ == old(out)@ + press_expansion(
                dual_hold(old(self).mappings@, q.code),
                key_set(old(self).emitted_down@),
                t,
            ) && (forall|x: KeyCode|
                final(self).emitted_down@.contains(x) == (old(self).emitted_down@.contains(x)
                    || dual_hold(old(self).mappings@, q.code).contains(x))))),
            old(self).pending_dual matches Some(q) ==> (!is_dual_input(old(self).mappings@, k)
                && !in_some_remap_input(old(self).mappings@, k) && !old(self).emitted_down@.contains(k) && !dual_hold(old(self).mappings@, q.code).contains(k)
                ==> final(out)@ == old(out)@ + press_expansion(
                dual_hold(old(self).mappings@, q.code),
                key_set(old(self).emitted_down@),
                t,
            ).push(OutputEvent::Key { time: t, code: k, state: KeyState::Press })),
            (old(self).pending_dual is None && !is_dual_input(old(self).mappings@, k)
                && !old(self).physical_down@.contains(k) && !old(self).emitted_down@.contains(k)
                && (forall|i: int|
                0 <= i < old(self).mappings@.len() ==> #[trigger] satisfied(
                    old(self).mappings@,
                    old(self).physical_down@.push(k),
                    i,
                ) == satisfied(old(self).mappings@, old(self).physical_down@, i))) ==> (final(out)@ == old(out)@.push(OutputEvent::Key { time: t, code: k, state: KeyState::Press })
                && final(self).emitted_down@ == old(self).emitted_down@.push(k)),
            forall|r: int|
                #![trigger satisfied(old(self).mappings@, old(self).physical_down@.push(k), r)]
                (old(self).pending_dual is None && !is_dual_input(old(self).mappings@, k)
                    && !old(self).physical_down@.contains(k) && 0 <= r < old(self).mappings@.len()
                    && !satisfied(old(self).mappings@, old(self).physical_down@, r) && satisfied(
                    old(self).mappings@,
                    old(self).physical_down@.push(k),
                    r,
                ) && (forall|i: int|
                    0 <= i < old(self).mappings@.len() && i != r ==> #[trigger] satisfied(
                        old(self).mappings@,
                        old(self).physical_down@.push(k),
                        i,
                    ) == satisfied(old(self).mappings@, old(self).physical_down@, i))) ==> final(out)@ == old(out)@ + chord_on_batch(
                    old(self).mappings@,
                    old(self).active_remaps@.push(r as usize),
                    old(self).held_duals@,
                    r,
                    key_set(old(self).emitted_down@),
                    t,
                ),
    {
        let ghost ms0 = self.mappings@;
        let ghost ph00 = self.physical_down@;
        let ghost ac00 = self.active_remaps@;
        let ghost hd00 = self.held_duals@;
        let ghost em00 = self.emitted_down@;
        let ghost out00 = out@;
        if self.pending_dual.is_some() {
            self.resolve_hold(out, Ghost(e0), Ghost(allowed), t);
        }
        let ghost phmid = self.physical_down@;
        let ghost acmid = self.active_remaps@;
        let ghost hdmid = self.held_duals@;
        insert_key(&mut self.physical_down, k);
        let ghost phnew = self.physical_down@;
        proof {
            assert(acmid == ac00 && phmid == ph00);
            assert forall|j2: int|
                0 <= j2 < acmid.len() implies satisfied(
                ms0,
                phnew,
                #[trigger] acmid[j2] as int,
            ) by {
                assert(satisfied(ms0, phmid, acmid[j2] as int));
                let inp = ms0[acmid[j2] as int].remap_input();
                assert forall|a2: int| 0 <= a2 < inp.len() implies phnew.contains(
                    #[trigger] inp[a2],
                ) by {
                    assert(phmid.contains(inp[a2]));
                }
            }
            assert forall|d2: int| 0 <= d2 < hdmid.len() implies phnew.contains(
                #[trigger] hdmid[d2],
            ) by {
                assert(phmid.contains(hdmid[d2]));
            }
            assert forall|j3: int|
                0 <= j3 < self.emitted_down@.len() implies justified_key(
                ms0,
                phnew,
                acmid,
                hdmid,
                #[trigger] self.emitted_down@[j3],
            ) by {
                assert(justified_key(ms0, phmid, acmid, hdmid, self.emitted_down@[j3]));
                if phmid.contains(self.emitted_down@[j3]) {
                    assert(phnew.contains(self.emitted_down@[j3]));
                }
            }
        }
        let nrules = self.mappings.len();
        proof {
            assert(ms0.len() == nrules as int);
            match old(self).pending_dual {
                Some(q) => {
                    assert(hdmid == hd00.push(q.code));
                    assert(hdmid.contains(q.code)) by {
                        assert(hdmid[hd00.len() as int] == q.code);
                    }
                    lemma_push_contains(hd00, q.code, k);
                },
                None => {},
            }
        }
        let dual = dual_role_for(&self.mappings, k);
        let heldk = contains_key(&self.held_duals, k);
        if dual.is_some() && !heldk {
            self.pending_dual = Some(PendingDual { code: k, press_time: t });
            proof {
                lemma_dual_not_in_rules(ms0, k);
                assert forall|i: int|
                    0 <= i < ms0.len() && #[trigger] satisfied(ms0, phnew, i) implies
                    acmid.contains(i as usize) by {
                    let inp = ms0[i].remap_input();
                    assert forall|a2: int| 0 <= a2 < inp.len() implies phmid.contains(
                        #[trigger] inp[a2],
                    ) by {
                        assert(phnew.contains(inp[a2]));
                        if inp[a2] == k {
                            assert(in_some_remap_input(ms0, k)) by {
                                assert(ms0[i].remap_input().contains(k)) by {
                                    assert(ms0[i].remap_input()[a2] == k);
                                }
                            }
                        }
                    }
                    assert(satisfied(ms0, phmid, i));
                }
                assert(phnew.contains(k));
            }
        } else {
            let new_active = compute_active(&self.mappings, &self.physical_down);
            proof {
                assert forall|j2: int|
                    0 <= j2 < acmid.len() implies ((#[trigger] acmid[j2] as int) < ms0.len()
                        && ms0[acmid[j2] as int] is Remap) by {
                    assert(satisfied(ms0, phnew, acmid[j2] as int));
                }
            }
            let ghost newa = new_active@;
            proof {
                if self.pending_dual is None && !is_dual_input(ms0, k) && !in_some_remap_input(
                    ms0,
                    k,
                ) {
                    assert forall|i: int|
                        0 <= i < ms0.len() implies ((#[trigger] newa.contains(i as usize))
                            == acmid.contains(i as usize)) by {
                        let inp = ms0[i].remap_input();
                        if satisfied(ms0, phnew, i) {
                            assert forall|a2: int| 0 <= a2 < inp.len() implies phmid.contains(
                                #[trigger] inp[a2],
                            ) by {
                                assert(phnew.contains(inp[a2]));
                                if inp[a2] == k {
                                    assert(in_some_remap_input(ms0, k)) by {
                                        assert(ms0[i].remap_input().contains(k)) by {
                                            assert(ms0[i].remap_input()[a2] == k);
                                        }
                                    }
                                }
                            }
                            assert(satisfied(ms0, phmid, i));
                        }
                        if satisfied(ms0, phmid, i) {
                            assert forall|a2: int| 0 <= a2 < inp.len() implies phnew.contains(
                                #[trigger] inp[a2],
                            ) by {
                                assert(phmid.contains(inp[a2]));
                            }
                            assert(satisfied(ms0, phnew, i));
                        }
                        if newa.contains(i as usize) {
                            let jw = choose|jw: int|
                                0 <= jw < newa.len() && newa[jw] == i as usize;
                            assert(satisfied(ms0, phnew, newa[jw] as int));
                        }
                        if acmid.contains(i as usize) {
                            let jw = choose|jw: int|
                                0 <= jw < acmid.len() && acmid[jw] == i as usize;
                            assert(satisfied(ms0, phnew, acmid[jw] as int));
                        }
                        if satisfied(ms0, phnew, i) {
                            assert(newa.contains(i as usize));
                            assert(acmid.contains(i as usize));
                        }
                    }
                }
            }
            proof {
                assert forall|j2: int|
                    0 <= j2 < newa.len() && acmid.contains(#[trigger] newa[j2]) implies
                    seq_subset(
                    ms0[newa[j2] as int].remap_output(),
                    self.emitted_down@,
                ) by {
                    let jv = choose|jv: int| 0 <= jv < acmid.len() && acmid[jv] == newa[j2];
                    assert(seq_subset(
                        ms0[acmid[jv] as int].remap_output(),
                        self.emitted_down@,
                    ));
                }
            }
            self.apply_active_change(out, Ghost(e0), Ghost(allowed), t, new_active);
            proof {
                assert forall|j2: int|
                    0 <= j2 < self.active_remaps@.len() implies (
                    #[trigger] self.active_remaps@[j2] as int) < ms0.len() by {
                    assert(satisfied(ms0, phnew, self.active_remaps@[j2] as int));
                }
            }
            let cons = consumed_by_active(&self.mappings, &self.active_remaps, k);
            let isdual = dual.is_some();
            let emitted_already = contains_key(&self.emitted_down, k);
            if !cons && !isdual && !emitted_already {
                let ghost emprev = self.emitted_down@;
                emit_key(out, &mut self.emitted_down, Ghost(e0), Ghost(allowed), t, k, KeyState::Press);
                proof {
                    let emn = self.emitted_down@;
                    assert(emn == emprev.push(k));
                    assert forall|j3: int|
                        0 <= j3 < emn.len() implies justified_key(
                        ms0,
                        phnew,
                        newa,
                        hdmid,
                        #[trigger] emn[j3],
                    ) && !is_dual_input(ms0, emn[j3]) by {
                        if j3 < emprev.len() {
                            assert(emn[j3] == emprev[j3]);
                            assert(justified_key(ms0, phnew, newa, hdmid, emprev[j3]));
                            assert(!is_dual_input(ms0, emprev[j3]));
                        } else {
                            assert(emn[j3] == k);
                            assert(phnew.contains(k));
                        }
                    }
                    assert forall|j2: int|
                        0 <= j2 < newa.len() implies seq_subset(
                        ms0[(#[trigger] newa[j2]) as int].remap_output(),
                        emn,
                    ) by {
                        assert(seq_subset(ms0[newa[j2] as int].remap_output(), emprev));
                        assert forall|b2: int|
                            0 <= b2 < ms0[newa[j2] as int].remap_output().len() implies
                            emn.contains(
                            #[trigger] ms0[newa[j2] as int].remap_output()[b2],
                        ) by {
                            lemma_push_contains(
                                emprev,
                                k,
                                ms0[newa[j2] as int].remap_output()[b2],
                            );
                        }
                    }
                }
            }
            proof {
                match old(self).pending_dual {
                    Some(q) => {
                        let exp = press_expansion(dual_hold(ms0, q.code), key_set(em00), t);
                        if !is_dual_input(ms0, k) && !in_some_remap_input(ms0, k)
                            && !em00.contains(k) && !dual_hold(ms0, q.code).contains(k) {
                            assert(out@ =~= out00 + exp.push(
                                OutputEvent::Key { time: t, code: k, state: KeyState::Press },
                            ));
                        }
                    },
                    None => {
                        if !is_dual_input(ms0, k) && !ph00.contains(k) && !em00.contains(k)
                            && (forall|i: int|
                            0 <= i < ms0.len() ==> #[trigger] satisfied(ms0, ph00.push(k), i)
                                == satisfied(ms0, ph00, i)) {
                            assert(phnew == ph00.push(k));
                            assert forall|i: int|
                                0 <= i < ms0.len() implies ((#[trigger] newa.contains(i as usize))
                                    == acmid.contains(i as usize)) by {
                                if newa.contains(i as usize) {
                                    let jw = choose|jw: int|
                                        0 <= jw < newa.len() && newa[jw] == i as usize;
                                    assert(satisfied(ms0, phnew, newa[jw] as int));
                                    assert(satisfied(ms0, ph00, i));
                                }
                                if acmid.contains(i as usize) {
                                    let jw = choose|jw: int|
                                        0 <= jw < acmid.len() && acmid[jw] == i as usize;
                                    assert(satisfied(ms0, ph00, acmid[jw] as int));
                                    assert(satisfied(ms0, phnew, i));
                                    assert(newa.contains(i as usize));
                                }
                            }
                            assert(!cons) by {
                                if cons {
                                    let jw = choose|jw: int|
                                        #![trigger newa[jw]]
                                        0 <= jw < newa.len() && ms0[newa[jw] as int].remap_input(
                                        ).contains(k);
                                    assert(satisfied(ms0, phnew, newa[jw] as int));
                                    assert(satisfied(ms0, ph00, newa[jw] as int));
                                    assert(ph00.contains(k));
                                }
                            }
                        }
                        if !is_dual_input(ms0, k) && !ph00.contains(k) {
                            assert forall|r: int|
                                0 <= r < ms0.len() && !satisfied(ms0, ph00, r) && satisfied(
                                    ms0,
                                    ph00.push(k),
                                    r,
                                ) && (forall|i: int|
                                    0 <= i < ms0.len() && i != r ==> #[trigger] satisfied(
                                        ms0,
                                        ph00.push(k),
                                        i,
                                    ) == satisfied(ms0, ph00, i)) implies out@ == out00
                                + chord_on_batch(
                                ms0,
                                ac00.push(r as usize),
                                hd00,
                                r,
                                key_set(em00),
                                t,
                            ) by {
                                let ru = r as usize;
                                assert((ru as int) == r);
                                assert(phnew == ph00.push(k));
                                assert(newa.contains(ru)) by {
                                    assert(satisfied(ms0, phnew, ru as int));
                                }
                                assert(!ac00.contains(ru)) by {
                                    if ac00.contains(ru) {
                                        let jw = choose|jw: int|
                                            0 <= jw < ac00.len() && ac00[jw] == ru;
                                        assert(satisfied(ms0, ph00, ac00[jw] as int));
                                    }
                                }
                                assert(lone_activation(ac00, newa, ru)) by {
                                    assert forall|u: usize| u != ru implies #[trigger]
                                        newa.contains(u) == ac00.contains(u) by {
                                        if newa.contains(u) {
                                            let jw = choose|jw: int|
                                                0 <= jw < newa.len() && newa[jw] == u;
                                            assert(satisfied(ms0, phnew, newa[jw] as int));
                                            assert(satisfied(ms0, ph00, u as int));
                                        }
                                        if ac00.contains(u) {
                                            let jw = choose|jw: int|
                                                0 <= jw < ac00.len() && ac00[jw] == u;
                                            assert(satisfied(ms0, ph00, ac00[jw] as int));
                                            assert(satisfied(ms0, phnew, u as int));
                                            assert(newa.contains(u));
                                        }
                                    }
                                }
                                assert(out@ == out00 + chord_on_batch(
                                    ms0,
                                    newa,
                                    hd00,
                                    ru as int,
                                    key_set(em00),
                                    t,
                                )) by {
                                    assert(cons) by {
                                        let inpr = ms0[r].remap_input();
                                        assert(ms0[r] is Remap);
                                        assert(!seq_subset(inpr, ph00));
                                        let a2 = choose|a2: int|
                                            0 <= a2 < inpr.len() && !ph00.contains(
                                                #[trigger] inpr[a2],
                                            );
                                        assert(phnew.contains(inpr[a2]));
                                        assert(inpr[a2] == k) by {
                                            if inpr[a2] != k {
                                                let w = choose|w: int|
                                                    0 <= w < phnew.len() && phnew[w] == inpr[a2];
                                                if w < ph00.len() {
                                                    assert(ph00[w] == inpr[a2]);
                                                }
                                            }
                                        }
                                        let jw = choose|jw: int|
                                            0 <= jw < newa.len() && newa[jw] == ru;
                                        assert(ms0[newa[jw] as int].remap_input().contains(k))
                                            by {
                                            assert(inpr[a2] == k);
                                        }
                                    }
                                }
                                assert forall|u: usize| #[trigger]
                                    newa.contains(u) == ac00.push(ru).contains(u) by {
                                    lemma_index_push_contains(ac00, ru, u);
                                }
                                lemma_retract_seq_equiv(
                                    ms0,
                                    newa,
                                    ac00.push(ru),
                                    hd00,
                                    ms0[r].remap_input(),
                                    key_set(em00),
                                    t,
                                );
                                assert(chord_on_batch(ms0, newa, hd00, r, key_set(em00), t)
                                    == chord_on_batch(
                                    ms0,
                                    ac00.push(ru),
                                    hd00,
                                    r,
                                    key_set(em00),
                                    t,
                                ));
                            }
                        }
                    },
                }
            }
        }
    }

    /// One release of key `k`: resolves the pending dual-role key as tap if
    /// it is this key, releases a held dual-role key's hold set, recomputes
    /// the chords, and passes a plain release through.
    #[verifier::rlimit(100)]
    fn handle_release(
        &mut self,
        out: &mut Vec<OutputEvent>,
        Ghost(e0): Ghost<Set<KeyCode>>,
        Ghost(allowed): Ghost<Set<KeyCode>>,
        t: u64,
        k: KeyCode,
    )
        requires
            old(self).wf(),
            batch_inv(e0, allowed, old(out)@, old(self).emitted_down@),
            forall|x: KeyCode| rule_output_key(old(self).mappings@, x) ==> allowed.contains(x),
        ensures
            final(self).wf(),
            batch_inv(e0, allowed, final(out)@, final(self).emitted_down@),
            final(self).mappings@ == old(self).mappings@,
            final(self).hold_threshold == old(self).hold_threshold,
            forall|x: KeyCode|
                final(self).physical_down@.contains(x) == (old(self).physical_down@.contains(x)
                    && x != k),
            final(self).pending_dual == (if old(self).pending_dual matches Some(p) && p.code
                == k {
                None
            } else {
                old(self).pending_dual
            }),
            (old(self).pending_dual matches Some(p) && p.code == k) ==> (final(self).emitted_down@ == old(self).emitted_down@ && final(out)@ == old(out)@
                + tap_expansion(
                dual_tap(old(self).mappings@, k),
                key_set(old(self).emitted_down@),
                t,
            ) && final(self).held_duals@ == old(self).held_duals@),
            (!is_dual_input(old(self).mappings@, k) && !in_some_remap_input(old(self).mappings@, k)
                && old(self).emitted_down@.contains(k) && !required_output(
                old(self).mappings@,
                old(self).active_remaps@,
                old(self).held_duals@,
                k,
            )) ==> (final(out)@ == old(out)@.push(
                OutputEvent::Key { time: t, code: k, state: KeyState::Release },
            ) && !final(self).emitted_down@.contains(k) && (forall|x: KeyCode|
                x != k ==> final(self).emitted_down@.contains(x) == old(self).emitted_down@.contains(x))),
            (!is_dual_input(old(self).mappings@, k) && !in_some_remap_input(old(self).mappings@, k)
                && !old(self).emitted_down@.contains(k)) ==> (final(out)@ == old(out)@ && final(self).emitted_down@ == old(self).emitted_down@),
            old(self).held_duals@.contains(k) ==> (final(out)@ == old(out)@ + retract_seq(
                old(self).mappings@,
                old(self).active_remaps@,
                old(self).held_duals@.remove_value(k),
                dual_hold(old(self).mappings@, k),
                key_set(old(self).emitted_down@),
                t,
            ) && final(self).held_duals@ == old(self).held_duals@.remove_value(k)
                && em_after_sweep(
                final(self).emitted_down@,
                key_set(old(self).emitted_down@),
                old(self).mappings@,
                old(self).active_remaps@,
                old(self).held_duals@.remove_value(k),
                dual_hold(old(self).mappings@, k),
            )),
            forall|r: int|
                #![trigger satisfied(old(self).mappings@, old(self).physical_down@.remove_value(k), r)]
                ((match old(self).pending_dual {
                    Some(p) => p.code != k,
                    None => true,
                }) && !old(self).held_duals@.contains(k) && !old(self).emitted_down@.contains(k)
                    && 0 <= r < old(self).mappings@.len() && satisfied(
                    old(self).mappings@,
                    old(self).physical_down@,
                    r,
                ) && !satisfied(
                    old(self).mappings@,
                    old(self).physical_down@.remove_value(k),
                    r,
                ) && (forall|i: int|
                    0 <= i < old(self).mappings@.len() && i != r ==> #[trigger] satisfied(
                        old(self).mappings@,
                        old(self).physical_down@.remove_value(k),
                        i,
                    ) == satisfied(old(self).mappings@, old(self).physical_down@, i))) ==> final(out)@ == old(out)@ + retract_seq(
                    old(self).mappings@,
                    old(self).active_remaps@.remove_value(r as usize),
                    old(self).held_duals@,
                    old(self).mappings@[r].remap_output(),
                    key_set(old(self).emitted_down@),
                    t,
                ),
    {
        let ghost ms0 = self.mappings@;
        let ghost ph00 = self.physical_down@;
        let ghost ac00 = self.active_remaps@;
        let ghost hd00 = self.held_duals@;
        let ghost em00 = self.emitted_down@;
        let is_tap = match &self.pending_dual {
            Some(p) => p.code == k,
            None => false,
        };
        if is_tap {
            proof {
                assert(is_dual_input(ms0, k));
            }
            self.resolve_tap(out, Ghost(e0), Ghost(allowed), t);
            remove_key(&mut self.physical_down, k);
            let ghost phnew = self.physical_down@;
            proof {
                lemma_dual_not_in_rules(ms0, k);
                assert forall|j2: int|
                    0 <= j2 < ac00.len() implies satisfied(
                    ms0,
                    phnew,
                    #[trigger] ac00[j2] as int,
                ) by {
                    assert(satisfied(ms0, ph00, ac00[j2] as int));
                    let inp = ms0[ac00[j2] as int].remap_input();
                    assert forall|a2: int| 0 <= a2 < inp.len() implies phnew.contains(
                        #[trigger] inp[a2],
                    ) by {
                        assert(ph00.contains(inp[a2]));
                        if inp[a2] == k {
                            assert(in_some_remap_input(ms0, k)) by {
                                assert(ms0[ac00[j2] as int].remap_input().contains(k)) by {
                                    assert(ms0[ac00[j2] as int].remap_input()[a2] == k);
                                }
                            }
                        }
                    }
                }
                assert forall|i: int|
                    0 <= i < ms0.len() && #[trigger] satisfied(ms0, phnew, i) implies
                    ac00.contains(i as usize) by {
                    let inp = ms0[i].remap_input();
                    assert forall|a2: int| 0 <= a2 < inp.len() implies ph00.contains(
                        #[trigger] inp[a2],
                    ) by {
                        assert(phnew.contains(inp[a2]));
                    }
                    assert(satisfied(ms0, ph00, i));
                }
                assert forall|d2: int| 0 <= d2 < hd00.len() implies phnew.contains(
                    #[trigger] hd00[d2],
                ) by {
                    assert(ph00.contains(hd00[d2]));
                    assert(hd00.contains(hd00[d2]));
                    assert(hd00[d2] != k);
                }
                assert forall|j3: int|
                    0 <= j3 < self.emitted_down@.len() implies justified_key(
                    ms0,
                    phnew,
                    ac00,
                    hd00,
                    #[trigger] self.emitted_down@[j3],
                ) by {
                    let x = self.emitted_down@[j3];
                    assert(justified_key(ms0, ph00, ac00, hd00, x));
                    assert(!is_dual_input(ms0, x));
                    assert(x != k);
                    if ph00.contains(x) {
                        assert(phnew.contains(x));
                    }
                }
            }
        } else {
            let heldk = contains_key(&self.held_duals, k);
            if heldk {
                self.release_held(out, Ghost(e0), Ghost(allowed), t, k);
                proof {
                    assert(is_dual_input(ms0, k)) by {
                        let d3 = choose|d3: int| 0 <= d3 < hd00.len() && hd00[d3] == k;
                        assert(is_dual_input(ms0, hd00[d3]));
                    }
                }
                let ghost hd1 = self.held_duals@;
                remove_key(&mut self.physical_down, k);
                let ghost phnew = self.physical_down@;
                proof {
                    lemma_dual_not_in_rules(ms0, k);
                    assert forall|j2: int|
                        0 <= j2 < ac00.len() implies satisfied(
                        ms0,
                        phnew,
                        #[trigger] ac00[j2] as int,
                    ) by {
                        assert(satisfied(ms0, ph00, ac00[j2] as int));
                        let inp = ms0[ac00[j2] as int].remap_input();
                        assert forall|a2: int| 0 <= a2 < inp.len() implies phnew.contains(
                            #[trigger] inp[a2],
                        ) by {
                            assert(ph00.contains(inp[a2]));
                            if inp[a2] == k {
                                assert(in_some_remap_input(ms0, k)) by {
                                    assert(ms0[ac00[j2] as int].remap_input().contains(k)) by {
                                        assert(ms0[ac00[j2] as int].remap_input()[a2] == k);
                                    }
                                }
                            }
                        }
                    }
                    assert forall|i: int|
                        0 <= i < ms0.len() && #[trigger] satisfied(ms0, phnew, i) implies
                        ac00.contains(i as usize) by {
                        let inp = ms0[i].remap_input();
                        assert forall|a2: int| 0 <= a2 < inp.len() implies ph00.contains(
                            #[trigger] inp[a2],
                        ) by {
                            assert(phnew.contains(inp[a2]));
                        }
                        assert(satisfied(ms0, ph00, i));
                    }
                    assert forall|d2: int| 0 <= d2 < hd1.len() implies phnew.contains(
                        #[trigger] hd1[d2],
                    ) by {
                        assert(hd1.contains(hd1[d2]));
                        assert(hd1[d2] != k);
                        assert(hd00.contains(hd1[d2]));
                        let d3 = choose|d3: int| 0 <= d3 < hd00.len() && hd00[d3] == hd1[d2];
                        assert(ph00.contains(hd00[d3]));
                    }
                    assert forall|j3: int|
                        0 <= j3 < self.emitted_down@.len() implies justified_key(
                        ms0,
                        phnew,
                        ac00,
                        hd1,
                        #[trigger] self.emitted_down@[j3],
                    ) by {
                        let x = self.emitted_down@[j3];
                        assert(justified_key(ms0, phnew.push(k), ac00, hd1, x) || true);
                        assert(justified_key(ms0, ph00, ac00, hd1, x));
                        assert(!is_dual_input(ms0, x));
                        assert(x != k);
                        if ph00.contains(x) {
                            assert(phnew.contains(x));
                        }
                    }
                }
            } else {
                remove_key(&mut self.physical_down, k);
                let ghost phnew = self.physical_down@;
                proof {
                    assert forall|j2: int|
                        0 <= j2 < ac00.len() implies ((#[trigger] ac00[j2] as int) < ms0.len()
                            && ms0[ac00[j2] as int] is Remap) by {
                        assert(satisfied(ms0, ph00, ac00[j2] as int));
                    }
                    assert forall|d2: int| 0 <= d2 < hd00.len() implies phnew.contains(
                        #[trigger] hd00[d2],
                    ) by {
                        assert(hd00.contains(hd00[d2]));
                        assert(hd00[d2] != k);
                        assert(ph00.contains(hd00[d2]));
                    }
                }
                let new_active = compute_active(&self.mappings, &self.physical_down);
                let ghost newa = new_active@;
                let nr = self.mappings.len();
                proof {
                    assert(ms0.len() == nr as int);
                    // every rule satisfied now was satisfied before the release
                    assert forall|j2: int|
                        0 <= j2 < newa.len() implies ac00.contains(#[trigger] newa[j2]) by {
                        assert(satisfied(ms0, phnew, newa[j2] as int));
                        let inp = ms0[newa[j2] as int].remap_input();
                        assert forall|a2: int| 0 <= a2 < inp.len() implies ph00.contains(
                            #[trigger] inp[a2],
                        ) by {
                            assert(phnew.contains(inp[a2]));
                        }
                        assert(satisfied(ms0, ph00, newa[j2] as int));
                    }
                }
                proof {
                    if required_output(ms0, newa, hd00, k) && !required_output(
                        ms0,
                        ac00,
                        hd00,
                        k,
                    ) {
                        if exists|jw: int|
                            #![trigger newa[jw]]
                            0 <= jw < newa.len() && (newa[jw] as int) < ms0.len() && ms0[newa[
                                jw
                            ] as int].remap_output().contains(k) {
                            let jw = choose|jw: int|
                                #![trigger newa[jw]]
                                0 <= jw < newa.len() && (newa[jw] as int) < ms0.len() && ms0[
                                    newa[jw] as int
                                ].remap_output().contains(k);
                            assert(ac00.contains(newa[jw]));
                            let jv = choose|jv: int|
                                0 <= jv < ac00.len() && ac00[jv] == newa[jw];
                            assert(required_output(ms0, ac00, hd00, k)) by {
                                assert(0 <= jv < ac00.len() && (ac00[jv] as int) < ms0.len()
                                    && ms0[ac00[jv] as int].remap_output().contains(k));
                            }
                        }
                        assert(false);
                    }
                }
                let was_down = contains_key(&self.emitted_down, k);
                if was_down {
                    let needed = required_elsewhere(
                        &self.mappings,
                        &new_active,
                        &self.held_duals,
                        k,
                    );
                    if !needed {
                        emit_key(
                            out,
                            &mut self.emitted_down,
                            Ghost(e0),
                            Ghost(allowed),
                            t,
                            k,
                            KeyState::Release,
                        );
                    }
                }
                let ghost em1 = self.emitted_down@;
                proof {
                    assert forall|j3: int|
                        0 <= j3 < em1.len() implies justified_key(
                        ms0,
                        phnew,
                        ac00,
                        hd00,
                        #[trigger] em1[j3],
                    ) && !is_dual_input(ms0, em1[j3]) by {
                        let x = em1[j3];
                        assert(em1.contains(x));
                        assert(em00.contains(x));
                        let j4 = choose|j4: int| 0 <= j4 < em00.len() && em00[j4] == x;
                        assert(justified_key(ms0, ph00, ac00, hd00, em00[j4]));
                        assert(!is_dual_input(ms0, em00[j4]));
                        if x == k {
                            assert(required_output(ms0, newa, hd00, k));
                            if exists|jw: int|
                                #![trigger newa[jw]]
                                0 <= jw < newa.len() && (newa[jw] as int) < ms0.len() && ms0[
                                    newa[jw] as int
                                ].remap_output().contains(k) {
                                let jw = choose|jw: int|
                                    #![trigger newa[jw]]
                                    0 <= jw < newa.len() && (newa[jw] as int) < ms0.len()
                                        && ms0[newa[jw] as int].remap_output().contains(k);
                                assert(ac00.contains(newa[jw]));
                                let jv = choose|jv: int|
                                    0 <= jv < ac00.len() && ac00[jv] == newa[jw];
                                assert(required_output(ms0, ac00, hd00, k)) by {
                                    assert(0 <= jv < ac00.len() && (ac00[jv] as int)
                                        < ms0.len() && ms0[ac00[jv] as int].remap_output(
                                    ).contains(k));
                                }
                            }
                        } else {
                            if ph00.contains(x) {
                                assert(phnew.contains(x));
                            }
                        }
                    }
                    assert forall|j2: int|
                        0 <= j2 < newa.len() && ac00.contains(#[trigger] newa[j2]) implies
                        seq_subset(
                        ms0[newa[j2] as int].remap_output(),
                        em1,
                    ) by {
                        let jv = choose|jv: int| 0 <= jv < ac00.len() && ac00[jv] == newa[j2];
                        assert(seq_subset(ms0[ac00[jv] as int].remap_output(), em00));
                        assert forall|b2: int|
                            0 <= b2 < ms0[newa[j2] as int].remap_output().len() implies
                            em1.contains(
                            #[trigger] ms0[newa[j2] as int].remap_output()[b2],
                        ) by {
                            let y = ms0[newa[j2] as int].remap_output()[b2];
                            assert(em00.contains(y));
                            assert(y != k || em1.contains(k)) by {
                                if y == k {
                                    assert(required_output(ms0, newa, hd00, k)) by {
                                        assert(0 <= j2 < newa.len() && (newa[j2] as int)
                                            < ms0.len() && ms0[newa[j2] as int].remap_output(
                                        ).contains(k));
                                    }
                                }
                            }
                            if y != k {
                                assert(em1.contains(y));
                            }
                        }
                    }
                    if !is_dual_input(ms0, k) && !in_some_remap_input(ms0, k) {
                        assert forall|i: int|
                            0 <= i < ms0.len() implies ((#[trigger] newa.contains(i as usize))
                                == ac00.contains(i as usize)) by {
                            let inp = ms0[i].remap_input();
                            if satisfied(ms0, phnew, i) {
                                assert forall|a2: int|
                                    0 <= a2 < inp.len() implies ph00.contains(
                                    #[trigger] inp[a2],
                                ) by {
                                    assert(phnew.contains(inp[a2]));
                                }
                                assert(satisfied(ms0, ph00, i));
                            }
                            if satisfied(ms0, ph00, i) {
                                assert forall|a2: int|
                                    0 <= a2 < inp.len() implies phnew.contains(
                                    #[trigger] inp[a2],
                                ) by {
                                    assert(ph00.contains(inp[a2]));
                                    if inp[a2] == k {
                                        assert(in_some_remap_input(ms0, k)) by {
                                            assert(ms0[i].remap_input().contains(k)) by {
                                                assert(ms0[i].remap_input()[a2] == k);
                                            }
                                        }
                                    }
                                }
                                assert(satisfied(ms0, phnew, i));
                            }
                            if newa.contains(i as usize) {
                                let jw = choose|jw: int|
                                    0 <= jw < newa.len() && newa[jw] == i as usize;
                                assert(satisfied(ms0, phnew, newa[jw] as int));
                            }
                            if ac00.contains(i as usize) {
                                let jw = choose|jw: int|
                                    0 <= jw < ac00.len() && ac00[jw] == i as usize;
                                assert(satisfied(ms0, ph00, ac00[jw] as int));
                            }
                            if satisfied(ms0, phnew, i) {
                                assert(newa.contains(i as usize));
                                assert(ac00.contains(i as usize));
                            }
                        }
                    }
                }
                self.apply_active_change(out, Ghost(e0), Ghost(allowed), t, new_active);
                proof {
                    if !hd00.contains(k) && !em00.contains(k) {
                        assert forall|r: int|
                            0 <= r < ms0.len() && satisfied(ms0, ph00, r) && !satisfied(
                                ms0,
                                ph00.remove_value(k),
                                r,
                            ) && (forall|i: int|
                                0 <= i < ms0.len() && i != r ==> #[trigger] satisfied(
                                    ms0,
                                    ph00.remove_value(k),
                                    i,
                                ) == satisfied(ms0, ph00, i)) implies out@ == old(out)@
                            + retract_seq(
                            ms0,
                            ac00.remove_value(r as usize),
                            hd00,
                            ms0[r].remap_output(),
                            key_set(em00),
                            t,
                        ) by {
                            let ru = r as usize;
                            assert((ru as int) == r);
                            assert(phnew == ph00.remove_value(k));
                            assert(ac00.contains(ru)) by {
                                assert(satisfied(ms0, ph00, r));
                            }
                            assert(!newa.contains(ru)) by {
                                if newa.contains(ru) {
                                    let jw = choose|jw: int|
                                        0 <= jw < newa.len() && newa[jw] == ru;
                                    assert(satisfied(ms0, phnew, newa[jw] as int));
                                }
                            }
                            assert(lone_deactivation(ac00, newa, ru)) by {
                                assert forall|u: usize| u != ru implies #[trigger]
                                    newa.contains(u) == ac00.contains(u) by {
                                    if newa.contains(u) {
                                        let jw = choose|jw: int|
                                            0 <= jw < newa.len() && newa[jw] == u;
                                        assert(satisfied(ms0, phnew, newa[jw] as int));
                                        assert(satisfied(ms0, ph00, u as int));
                                    }
                                    if ac00.contains(u) {
                                        let jw = choose|jw: int|
                                            0 <= jw < ac00.len() && ac00[jw] == u;
                                        assert(satisfied(ms0, ph00, ac00[jw] as int));
                                        assert(satisfied(ms0, phnew, u as int));
                                        assert(newa.contains(u));
                                    }
                                }
                            }
                            assert(out@ == old(out)@ + retract_seq(
                                ms0,
                                newa,
                                hd00,
                                ms0[ru as int].remap_output(),
                                key_set(em00),
                                t,
                            ));
                            lemma_index_remove_value(ac00, ru);
                            assert forall|u: usize| #[trigger]
                                newa.contains(u) == ac00.remove_value(ru).contains(u) by {}
                            lemma_retract_seq_equiv(
                                ms0,
                                newa,
                                ac00.remove_value(ru),
                                hd00,
                                ms0[r].remap_output(),
                                key_set(em00),
                                t,
                            );
                        }
                    }
                }
            }
        }
    }

    /// Classifies the pending dual-role key as a hold: presses its hold set
    /// in list order (skipping keys already down) and marks the key held.
    #[verifier::rlimit(100)]
    fn resolve_hold(
        &mut self,
        out: &mut Vec<OutputEvent>,
        Ghost(e0): Ghost<Set<KeyCode>>,
        Ghost(allowed): Ghost<Set<KeyCode>>,
        t: u64,
    )
        requires
            old(self).wf(),
            old(self).pending_dual is Some,
            batch_inv(e0, allowed, old(out)@, old(self).emitted_down@),
            forall|x: KeyCode| rule_output_key(old(self).mappings@, x) ==> allowed.contains(x),
        ensures
            final(self).wf(),
            batch_inv(e0, allowed, final(out)@, final(self).emitted_down@),
            final(self).pending_dual is None,
            final(self).mappings@ == old(self).mappings@,
            final(self).hold_threshold == old(self).hold_threshold,
            final(self).physical_down@ == old(self).physical_down@,
            final(self).active_remaps@ == old(self).active_remaps@,
            old(self).pending_dual matches Some(p) ==> {
                &&& final(self).held_duals@ == old(self).held_duals@.push(p.code)
                &&& (forall|x: KeyCode|
                    final(self).emitted_down@.contains(x) == (old(self).emitted_down@.contains(x)
                        || dual_hold(old(self).mappings@, p.code).contains(x)))
                &&& final(out)@ == old(out)@ + press_expansion(
                    dual_hold(old(self).mappings@, p.code),
                    key_set(old(self).emitted_down@),
                    t,
                )
            },
    {
        let p = self.pending_dual.unwrap();
        let ridx = match dual_role_for(&self.mappings, p.code) {
            Some(i) => i,
            None => {
                proof {
                    assert(false);
                }
                0
            },
        };
        proof {
            lemma_dual_rule_unique(self.mappings@, p.code, ridx as int);
        }
        let (hold, _tap) = dual_parts(&self.mappings[ridx]);
        let ghost ms0 = self.mappings@;
        let ghost ph0 = self.physical_down@;
        let ghost ac0 = self.active_remaps@;
        let ghost hd0 = self.held_duals@;
        let ghost th0 = self.hold_threshold;
        let ghost pd0 = self.pending_dual;
        let ghost em0 = self.emitted_down@;
        let ghost out0 = out@;
        let ghost hseq = hold@;
        assert(hseq == dual_hold(ms0, p.code));
        let mut i: usize = 0;
        while i < hold.len()
            invariant
                batch_inv(e0, allowed, out@, self.emitted_down@),
                0 <= i <= hold@.len(),
                hold@ == hseq,
                self.mappings@ == ms0,
                self.physical_down@ == ph0,
                self.active_remaps@ == ac0,
                self.held_duals@ == hd0,
                self.hold_threshold == th0,
                self.pending_dual == pd0,
                0 <= ridx < ms0.len(),
                ms0[ridx as int].is_dual(),
                hseq == ms0[ridx as int].hold_keys(),
                forall|x: KeyCode| rule_output_key(ms0, x) ==> allowed.contains(x),
                out@ == out0 + press_expansion(hseq.take(i as int), key_set(em0), t),
                em_tracks(self.emitted_down@, em0, hseq.take(i as int)),
            decreases hseq.len() - i,
        {
            let k = hold[i];
            let ghost emprev = self.emitted_down@;
            proof {
                assert(hseq.take(i + 1).drop_last() =~= hseq.take(i as int));
                assert(hseq.take(i + 1).last() == k);
                assert forall|x: KeyCode|
                    hseq.take(i + 1).contains(x) == (hseq.take(i as int).contains(x) || x
                        == k) by {
                    assert(hseq.take(i + 1) =~= hseq.take(i as int).push(k));
                    lemma_push_contains(hseq.take(i as int), k, x);
                }
            }
            proof {
                assert(em_tracks(self.emitted_down@, em0, hseq.take(i as int)));
                assert(self.emitted_down@.contains(k) == (em0.contains(k) || hseq.take(
                    i as int,
                ).contains(k)));
            }
            if !contains_key(&self.emitted_down, k) {
                proof {
                    assert(allowed.contains(k)) by {
                        assert(ms0[ridx as int].hold_keys().contains(k)) by {
                            assert(hseq[i as int] == k);
                        }
                        assert(in_some_hold(ms0, k));
                        assert(rule_output_key(ms0, k));
                    }
                }
                emit_key(
                    out,
                    &mut self.emitted_down,
                    Ghost(e0),
                    Ghost(allowed),
                    t,
                    k,
                    KeyState::Press,
                );
                proof {
                    let e = OutputEvent::Key { time: t, code: k, state: KeyState::Press };
                    assert(!(em0.contains(k) || hseq.take(i as int).contains(k)));
                    assert(press_expansion(hseq.take(i + 1), key_set(em0), t) == press_expansion(
                        hseq.take(i as int),
                        key_set(em0),
                        t,
                    ).push(e));
                    assert(out@ =~= out0 + press_expansion(hseq.take(i + 1), key_set(em0), t));
                    assert(em_tracks(self.emitted_down@, em0, hseq.take(i + 1))) by {
                        assert forall|x: KeyCode|
                            #[trigger] self.emitted_down@.contains(x) == (em0.contains(x)
                                || hseq.take(i + 1).contains(x)) by {
                            lemma_push_contains(emprev, k, x);
                            assert(emprev.contains(x) == (em0.contains(x) || hseq.take(
                                i as int,
                            ).contains(x)));
                            assert(hseq.take(i + 1).contains(x) == (hseq.take(
                                i as int,
                            ).contains(x) || x == k));
                        }
                    }
                }
            } else {
                proof {
                    assert(em0.contains(k) || hseq.take(i as int).contains(k));
                    assert(press_expansion(hseq.take(i + 1), key_set(em0), t) == press_expansion(
                        hseq.take(i as int),
                        key_set(em0),
                        t,
                    ));
                    assert(em_tracks(self.emitted_down@, em0, hseq.take(i + 1))) by {
                        assert forall|x: KeyCode|
                            #[trigger] self.emitted_down@.contains(x) == (em0.contains(x)
                                || hseq.take(i + 1).contains(x)) by {
                            assert(self.emitted_down@.contains(x) == (em0.contains(x)
                                || hseq.take(i as int).contains(x)));
                            assert(hseq.take(i + 1).contains(x) == (hseq.take(
                                i as int,
                            ).contains(x) || x == k));
                        }
                    }
                }
            }
            i += 1;
        }
        proof {
            assert(hseq.take(hseq.len() as int) =~= hseq);
            assert(em_tracks(self.emitted_down@, em0, hseq));
        }
        self.held_duals.push(p.code);
        self.pending_dual = None;
        proof {
            let ms = ms0;
            let emf = self.emitted_down@;
            let hdf = self.held_duals@;
            lemma_push_nodup(hd0, p.code);
            assert forall|j: int|
                0 <= j < hdf.len() implies is_dual_input(ms, #[trigger] hdf[j])
                && ph0.contains(hdf[j]) by {
                if j < hd0.len() {
                    assert(hdf[j] == hd0[j]);
                    assert(is_dual_input(ms, hd0[j]) && ph0.contains(hd0[j]));
                } else {
                    assert(hdf[j] == p.code);
                }
            }
            assert forall|j: int|
                0 <= j < ac0.len() implies seq_subset(
                ms[#[trigger] ac0[j] as int].remap_output(),
                emf,
            ) by {
                assert(seq_subset(ms[ac0[j] as int].remap_output(), em0));
                assert forall|j2: int|
                    0 <= j2 < ms[ac0[j] as int].remap_output().len() implies emf.contains(
                    #[trigger] ms[ac0[j] as int].remap_output()[j2],
                ) by {
                    assert(em0.contains(ms[ac0[j] as int].remap_output()[j2]));
                }
            }
            assert forall|j: int|
                0 <= j < emf.len() implies justified_key(
                ms,
                ph0,
                ac0,
                hdf,
                #[trigger] emf[j],
            ) by {
                let x = emf[j];
                assert(emf.contains(x));
                if em0.contains(x) {
                    let j0 = choose|j0: int| 0 <= j0 < em0.len() && em0[j0] == x;
                    assert(justified_key(ms, ph0, ac0, hd0, em0[j0]));
                    if required_output(ms, ac0, hd0, x) {
                        if exists|j2: int|
                            #![trigger ac0[j2]]
                            0 <= j2 < ac0.len() && (ac0[j2] as int) < ms.len() && ms[ac0[
                                j2
                            ] as int].remap_output().contains(x) {
                        } else {
                            let (d2, i2) = choose|d2: int, i2: int|
                                #![trigger hd0[d2], ms[i2]]
                                0 <= d2 < hd0.len() && 0 <= i2 < ms.len() && ms[i2].is_dual()
                                    && ms[i2].dual_input() == hd0[d2] && ms[
                                    i2
                                ].hold_keys().contains(x);
                            assert(hdf[d2] == hd0[d2]);
                            assert(required_output(ms, ac0, hdf, x));
                        }
                    }
                } else {
                    assert(hseq.contains(x));
                    assert(hdf[hd0.len() as int] == p.code);
                    assert(0 <= hd0.len() < hdf.len() && 0 <= ridx < ms.len() && ms[
                        ridx as int
                    ].is_dual() && ms[ridx as int].dual_input() == hdf[hd0.len() as int] && ms[
                        ridx as int
                    ].hold_keys().contains(x));
                    assert(required_output(ms, ac0, hdf, x));
                }
            }
            assert forall|j: int|
                0 <= j < emf.len() implies !is_dual_input(ms, #[trigger] emf[j]) by {
                let x = emf[j];
                assert(emf.contains(x));
                if em0.contains(x) {
                    let j0 = choose|j0: int| 0 <= j0 < em0.len() && em0[j0] == x;
                    assert(!is_dual_input(ms, em0[j0]));
                } else {
                    assert(hseq.contains(x));
                    if is_dual_input(ms, x) {
                        lemma_dual_not_in_rules(ms, x);
                        assert(ms[ridx as int].hold_keys().contains(x));
                        assert(in_some_hold(ms, x));
                    }
                }
            }
        }
    }

    /// Classifies the pending dual-role key as a tap: each tap key that is
    /// not already down gets a full press/release cycle, each event closed
    /// by its own `SYN_REPORT`.
    #[verifier::rlimit(100)]
    fn resolve_tap(
        &mut self,
        out: &mut Vec<OutputEvent>,
        Ghost(e0): Ghost<Set<KeyCode>>,
        Ghost(allowed): Ghost<Set<KeyCode>>,
        t: u64,
    )
        requires
            old(self).wf(),
            old(self).pending_dual is Some,
            batch_inv(e0, allowed, old(out)@, old(self).emitted_down@),
            forall|x: KeyCode| rule_output_key(old(self).mappings@, x) ==> allowed.contains(x),
        ensures
            final(self).wf(),
            batch_inv(e0, allowed, final(out)@, final(self).emitted_down@),
            final(self).pending_dual is None,
            final(self).mappings@ == old(self).mappings@,
            final(self).hold_threshold == old(self).hold_threshold,
            final(self).physical_down@ == old(self).physical_down@,
            final(self).active_remaps@ == old(self).active_remaps@,
            final(self).held_duals@ == old(self).held_duals@,
            final(self).emitted_down@ == old(self).emitted_down@,
            old(self).pending_dual matches Some(p) ==> final(out)@ == old(out)@ + tap_expansion(
                dual_tap(old(self).mappings@, p.code),
                key_set(old(self).emitted_down@),
                t,
            ),
            final(out)@.len() > 0 ==> final(out)@.last() is Syn || old(out)@.len() > 0,
            old(self).pending_dual matches Some(p) && tap_expansion(
                dual_tap(old(self).mappings@, p.code),
                key_set(old(self).emitted_down@),
                t,
            ).len() > 0 ==> final(out)@.len() > 0 && final(out)@.last() is Syn,
    {
        let p = self.pending_dual.unwrap();
        let ridx = match dual_role_for(&self.mappings, p.code) {
            Some(i) => i,
            None => {
                proof {
                    assert(false);
                }
                0
            },
        };
        proof {
            lemma_dual_rule_unique(self.mappings@, p.code, ridx as int);
        }
        let (_hold, tap) = dual_parts(&self.mappings[ridx]);
        let ghost ms0 = self.mappings@;
        let ghost ph0 = self.physical_down@;
        let ghost ac0 = self.active_remaps@;
        let ghost hd0 = self.held_duals@;
        let ghost th0 = self.hold_threshold;
        let ghost pd0 = self.pending_dual;
        let ghost em0 = self.emitted_down@;
        let ghost out0 = out@;
        let ghost tseq = tap@;
        assert(tseq == dual_tap(ms0, p.code));
        let mut i: usize = 0;
        while i < tap.len()
            invariant
                batch_inv(e0, allowed, out@, self.emitted_down@),
                0 <= i <= tap@.len(),
                tap@ == tseq,
                self.mappings@ == ms0,
                self.physical_down@ == ph0,
                self.active_remaps@ == ac0,
                self.held_duals@ == hd0,
                self.hold_threshold == th0,
                self.pending_dual == pd0,
                self.emitted_down@ == em0,
                em0.no_duplicates(),
                0 <= ridx < ms0.len(),
                ms0[ridx as int].is_dual(),
                tseq == ms0[ridx as int].tap_keys(),
                forall|x: KeyCode| rule_output_key(ms0, x) ==> allowed.contains(x),
                out@ == out0 + tap_expansion(tseq.take(i as int), key_set(em0), t),
                out@.len() > 0 ==> out@.last() is Syn || out0.len() > 0,
                tap_expansion(tseq.take(i as int), key_set(em0), t).len() > 0 ==> out@.len() > 0
                    && out@.last() is Syn,
            decreases tseq.len() - i,
        {
            let k = tap[i];
            proof {
                assert(tseq.take(i + 1).drop_last() =~= tseq.take(i as int));
                assert(tseq.take(i + 1).last() == k);
            }
            if !contains_key(&self.emitted_down, k) {
                proof {
                    assert(allowed.contains(k)) by {
                        assert(ms0[ridx as int].tap_keys().contains(k)) by {
                            assert(tseq[i as int] == k);
                        }
                        assert(in_some_tap(ms0, k));
                        assert(rule_output_key(ms0, k));
                    }
                }
                    emit_key(
                    out,
                    &mut self.emitted_down,
                    Ghost(e0),
                    Ghost(allowed),
                    t,
                    k,
                    KeyState::Press,
                );
                emit_syn(out, Ghost(e0), Ghost(allowed), Ghost(self.emitted_down@), t);
                proof {
                    lemma_push_contains(em0, k, k);
                    lemma_push_nodup(em0, k);
                    assert(em0.push(k).last() == k);
                }
                emit_key(
                    out,
                    &mut self.emitted_down,
                    Ghost(e0),
                    Ghost(allowed),
                    t,
                    k,
                    KeyState::Release,
                );
                proof {
                    assert(self.emitted_down@ == em0.push(k).drop_last());
                    assert(em0.push(k).drop_last() =~= em0);
                    assert(self.emitted_down@ == em0);
                }
                emit_syn(out, Ghost(e0), Ghost(allowed), Ghost(self.emitted_down@), t);
                proof {
                    let cycle = seq![
                        OutputEvent::Key { time: t, code: k, state: KeyState::Press },
                        OutputEvent::Syn { time: t },
                        OutputEvent::Key { time: t, code: k, state: KeyState::Release },
                        OutputEvent::Syn { time: t },
                    ];
                    assert(tap_expansion(tseq.take(i + 1), key_set(em0), t) == tap_expansion(
                        tseq.take(i as int),
                        key_set(em0),
                        t,
                    ) + cycle);
                    assert(out@ =~= out0 + tap_expansion(tseq.take(i + 1), key_set(em0), t));
                }
            } else {
                proof {
                    assert(key_set(em0).contains(k));
                    assert(tap_expansion(tseq.take(i + 1), key_set(em0), t) == tap_expansion(
                        tseq.take(i as int),
                        key_set(em0),
                        t,
                    ));
                }
            }
            i += 1;
        }
        proof {
            assert(tseq.take(tseq.len() as int) =~= tseq);
        }
        self.pending_dual = None;
    }

    /// Switches the recorded active chords to `new_active`: newly active
    /// rules first retract their still-emitted input keys and press their
    /// outputs, then rules no longer satisfied release the outputs nothing
    /// else requires.
    #[verifier::rlimit(100)]
    fn apply_active_change(
        &mut self,
        out: &mut Vec<OutputEvent>,
        Ghost(e0): Ghost<Set<KeyCode>>,
        Ghost(allowed): Ghost<Set<KeyCode>>,
        t: u64,
        new_active: Vec<usize>,
    )
        requires
            table_wf(old(self).mappings@),
            batch_inv(e0, allowed, old(out)@, old(self).emitted_down@),
            forall|x: KeyCode| rule_output_key(old(self).mappings@, x) ==> allowed.contains(x),
            old(self).active_remaps@.no_duplicates(),
            forall|j: int|
                0 <= j < old(self).active_remaps@.len() ==> ((
                #[trigger] old(self).active_remaps@[j] as int) < old(self).mappings@.len()
                    && old(self).mappings@[old(self).active_remaps@[j] as int] is Remap),
            forall|j2: int|
                0 <= j2 < new_active@.len() && old(self).active_remaps@.contains(
                    #[trigger] new_active@[j2],
                ) ==> seq_subset(
                    old(self).mappings@[new_active@[j2] as int].remap_output(),
                    old(self).emitted_down@,
                ),
            new_active@.no_duplicates(),
            active_sound(old(self).mappings@, old(self).physical_down@, new_active@),
            active_complete(old(self).mappings@, old(self).physical_down@, new_active@),
            forall|d: int|
                0 <= d < old(self).held_duals@.len() ==> is_dual_input(
                    old(self).mappings@,
                    #[trigger] old(self).held_duals@[d],
                ),
            em_justified(
                old(self).mappings@,
                old(self).physical_down@,
                old(self).active_remaps@,
                old(self).held_duals@,
                old(self).emitted_down@,
            ),
            em_dual_free(old(self).mappings@, old(self).emitted_down@),
        ensures
            batch_inv(e0, allowed, final(out)@, final(self).emitted_down@),
            final(self).active_remaps@ == new_active@,
            final(self).mappings@ == old(self).mappings@,
            final(self).physical_down@ == old(self).physical_down@,
            final(self).held_duals@ == old(self).held_duals@,
            final(self).pending_dual == old(self).pending_dual,
            final(self).hold_threshold == old(self).hold_threshold,
            outputs_emitted(old(self).mappings@, new_active@, final(self).emitted_down@),
            em_justified(
                old(self).mappings@,
                old(self).physical_down@,
                new_active@,
                old(self).held_duals@,
                final(self).emitted_down@,
            ),
            em_dual_free(old(self).mappings@, final(self).emitted_down@),
            (forall|i: int|
                0 <= i < old(self).mappings@.len() ==> ((#[trigger] new_active@.contains(
                    i as usize,
                )) == old(self).active_remaps@.contains(i as usize))) ==> (final(out)@ == old(out)@ && final(self).emitted_down@ == old(self).emitted_down@),
            forall|r: usize|
                #![trigger lone_activation(old(self).active_remaps@, new_active@, r)]
                lone_activation(old(self).active_remaps@, new_active@, r) ==> (final(out)@ == old(out)@ + chord_on_batch(
                    old(self).mappings@,
                    new_active@,
                    old(self).held_duals@,
                    r as int,
                    key_set(old(self).emitted_down@),
                    t,
                ) && em_after_chord(
                    final(self).emitted_down@,
                    key_set(old(self).emitted_down@),
                    old(self).mappings@,
                    new_active@,
                    old(self).held_duals@,
                    r as int,
                )),
            forall|r: usize|
                #![trigger lone_deactivation(old(self).active_remaps@, new_active@, r)]
                lone_deactivation(old(self).active_remaps@, new_active@, r) ==> ((r as int) < old(self).mappings@.len() ==> (final(out)@ == old(out)@ + retract_seq(
                    old(self).mappings@,
                    new_active@,
                    old(self).held_duals@,
                    old(self).mappings@[r as int].remap_output(),
                    key_set(old(self).emitted_down@),
                    t,
                ) && em_after_sweep(
                    final(self).emitted_down@,
                    key_set(old(self).emitted_down@),
                    old(self).mappings@,
                    new_active@,
                    old(self).held_duals@,
                    old(self).mappings@[r as int].remap_output(),
                ))),
    {
        let ghost ms0 = self.mappings@;
        let ghost ph0 = self.physical_down@;
        let ghost olda = self.active_remaps@;
        let ghost hd0 = self.held_duals@;
        let ghost th0 = self.hold_threshold;
        let ghost pd0 = self.pending_dual;
        let ghost em_in = self.emitted_down@;
        let ghost out_in = out@;
        let ghost newa = new_active@;
        let ghost same = (forall|i: int|
            0 <= i < ms0.len() ==> ((#[trigger] newa.contains(i as usize)) == olda.contains(
                i as usize,
            )));
        proof {
            assert forall|j2: int|
                0 <= j2 < newa.len() implies (#[trigger] newa[j2] as int) < ms0.len() by {
                assert(satisfied(ms0, ph0, newa[j2] as int));
            }
        }
        let mut j: usize = 0;
        while j < new_active.len()
            invariant
                forall|j2: int| 0 <= j2 < newa.len() ==> (#[trigger] newa[j2] as int) < ms0.len(),
                batch_inv(e0, allowed, out@, self.emitted_down@),
                0 <= j <= newa.len(),
                new_active@ == newa,
                self.mappings@ == ms0,
                self.physical_down@ == ph0,
                self.active_remaps@ == olda,
                self.held_duals@ == hd0,
                self.hold_threshold == th0,
                self.pending_dual == pd0,
                table_wf(ms0),
                forall|x: KeyCode| rule_output_key(ms0, x) ==> allowed.contains(x),
                newa.no_duplicates(),
                active_sound(ms0, ph0, newa),
                forall|j2: int|
                    0 <= j2 < olda.len() ==> ((#[trigger] olda[j2] as int) < ms0.len() && ms0[
                        olda[j2] as int
                    ] is Remap),
                forall|d2: int| 0 <= d2 < hd0.len() ==> is_dual_input(ms0, #[trigger] hd0[d2]),
                em_just_mixed(ms0, ph0, olda, newa, hd0, self.emitted_down@),
                em_dual_free(ms0, self.emitted_down@),
                forall|j2: int|
                    0 <= j2 < j ==> seq_subset(
                        ms0[(#[trigger] newa[j2]) as int].remap_output(),
                        self.emitted_down@,
                    ),
                forall|j2: int|
                    0 <= j2 < newa.len() && olda.contains(newa[j2]) ==> seq_subset(
                        ms0[(#[trigger] newa[j2]) as int].remap_output(),
                        self.emitted_down@,
                    ),
                same ==> (out@ == out_in && self.emitted_down@ == em_in),
                same == (forall|i: int|
                    0 <= i < ms0.len() ==> ((#[trigger] newa.contains(i as usize))
                        == olda.contains(i as usize))),
                forall|r: usize|
                    #![trigger lone_activation(olda, newa, r)]
                    lone_activation(olda, newa, r) && !newa.take(j as int).contains(r) ==> (out@
                        == out_in && self.emitted_down@ == em_in),
                forall|r: usize|
                    #![trigger lone_activation(olda, newa, r)]
                    lone_activation(olda, newa, r) && newa.take(j as int).contains(r) ==> (out@
                        == out_in + chord_on_batch(ms0, newa, hd0, r as int, key_set(em_in), t)
                        && em_after_chord(
                        self.emitted_down@,
                        key_set(em_in),
                        ms0,
                        newa,
                        hd0,
                        r as int,
                    )),
                forall|r: usize|
                    #![trigger lone_deactivation(olda, newa, r)]
                    lone_deactivation(olda, newa, r) ==> (out@ == out_in && self.emitted_down@
                        == em_in),
            decreases newa.len() - j,
        {
            let idx = new_active[j];
            proof {
                assert(newa[j as int] == idx);
                assert(satisfied(ms0, ph0, idx as int));
            }
            if !contains_index(&self.active_remaps, idx) {
                proof {
                    if same {
                        assert(newa.contains(idx)) by { assert(newa[j as int] == idx) };
                        assert(0 <= (idx as int) < ms0.len());
                        assert(newa.contains((idx as int) as usize) == olda.contains(
                            (idx as int) as usize,
                        ));
                        assert(olda.contains(idx));
                        assert(false);
                    }
                }
                let (inp, outp) = remap_parts(&self.mappings[idx]);
                let ghost emj = self.emitted_down@;
                let ghost outj = out@;
                proof {
                    assert(out@ =~= outj + retract_seq(
                        ms0,
                        newa,
                        hd0,
                        inp@.take(0),
                        key_set(emj),
                        t,
                    ));
                }
                let mut a: usize = 0;
                while a < inp.len()
                    invariant
                        0 <= j < newa.len(),
                        newa[j as int] == idx,
                        forall|j2: int|
                            0 <= j2 < newa.len() ==> (#[trigger] newa[j2] as int) < ms0.len(),
                        batch_inv(e0, allowed, out@, self.emitted_down@),
                        0 <= a <= inp@.len(),
                        inp@ == ms0[idx as int].remap_input(),
                        outp@ == ms0[idx as int].remap_output(),
                        0 <= idx < ms0.len(),
                        ms0[idx as int] is Remap,
                        new_active@ == newa,
                        self.mappings@ == ms0,
                        self.physical_down@ == ph0,
                        self.active_remaps@ == olda,
                        self.held_duals@ == hd0,
                        self.hold_threshold == th0,
                        self.pending_dual == pd0,
                        table_wf(ms0),
                        forall|x: KeyCode| rule_output_key(ms0, x) ==> allowed.contains(x),
                        forall|j2: int|
                            0 <= j2 < olda.len() ==> ((#[trigger] olda[j2] as int) < ms0.len()
                                && ms0[olda[j2] as int] is Remap),
                        forall|d2: int|
                            0 <= d2 < hd0.len() ==> is_dual_input(ms0, #[trigger] hd0[d2]),
                        em_just_mixed(ms0, ph0, olda, newa, hd0, self.emitted_down@),
                        em_dual_free(ms0, self.emitted_down@),
                        forall|j2: int|
                            0 <= j2 < j ==> seq_subset(
                                ms0[(#[trigger] newa[j2]) as int].remap_output(),
                                self.emitted_down@,
                            ),
                        forall|j2: int|
                            0 <= j2 < newa.len() && olda.contains(newa[j2]) ==> seq_subset(
                                ms0[(#[trigger] newa[j2]) as int].remap_output(),
                                self.emitted_down@,
                            ),
                        out@ == outj + retract_seq(
                            ms0,
                            newa,
                            hd0,
                            inp@.take(a as int),
                            key_set(emj),
                            t,
                        ),
                        em_after_sweep(
                            self.emitted_down@,
                            key_set(emj),
                            ms0,
                            newa,
                            hd0,
                            inp@.take(a as int),
                        ),
                    decreases inp@.len() - a,
                {
                    let k2 = inp[a];
                    proof {
                        assert(inp@.take(a + 1).drop_last() =~= inp@.take(a as int));
                        assert(inp@.take(a + 1).last() == k2);
                        assert(inp@.take(a + 1) =~= inp@.take(a as int).push(k2));
                        assert(em_after_sweep(
                            self.emitted_down@,
                            key_set(emj),
                            ms0,
                            newa,
                            hd0,
                            inp@.take(a as int),
                        ));
                        assert(self.emitted_down@.contains(k2) == (key_set(emj).contains(k2)
                            && !(inp@.take(a as int).contains(k2) && !required_output(
                            ms0,
                            newa,
                            hd0,
                            k2,
                        ))));
                    }
                    let down = contains_key(&self.emitted_down, k2);
                    let needed = required_elsewhere(
                        &self.mappings,
                        &new_active,
                        &self.held_duals,
                        k2,
                    );
                    if down && !needed {
                        let ghost emprev = self.emitted_down@;
                        emit_key(
                            out,
                            &mut self.emitted_down,
                            Ghost(e0),
                            Ghost(allowed),
                            t,
                            k2,
                            KeyState::Release,
                        );
                        proof {
                            let emn = self.emitted_down@;
                            assert forall|j3: int|
                                0 <= j3 < emn.len() implies (justified_key(
                                ms0,
                                ph0,
                                olda,
                                hd0,
                                #[trigger] emn[j3],
                            ) || required_output(ms0, newa, hd0, emn[j3])) && !is_dual_input(
                                ms0,
                                emn[j3],
                            ) by {
                                let x = emn[j3];
                                assert(emn.contains(x));
                                assert(x != k2);
                                assert(emprev.contains(x));
                                let j4 = choose|j4: int|
                                    0 <= j4 < emprev.len() && emprev[j4] == x;
                                assert(justified_key(ms0, ph0, olda, hd0, emprev[j4])
                                    || required_output(ms0, newa, hd0, emprev[j4]));
                                assert(!is_dual_input(ms0, emprev[j4]));
                            }
                            assert forall|j2: int|
                                0 <= j2 < j implies seq_subset(
                                ms0[(#[trigger] newa[j2]) as int].remap_output(),
                                self.emitted_down@,
                            ) by {
                                assert(seq_subset(ms0[newa[j2] as int].remap_output(), emprev));
                                assert forall|b2: int|
                                    0 <= b2 < ms0[newa[j2] as int].remap_output().len() implies
                                    self.emitted_down@.contains(
                                    #[trigger] ms0[newa[j2] as int].remap_output()[b2],
                                ) by {
                                    let y = ms0[newa[j2] as int].remap_output()[b2];
                                    assert(emprev.contains(y));
                                    assert(y != k2) by {
                                        if y == k2 {
                                            assert(ms0[newa[j2] as int].remap_output().contains(
                                                y,
                                            )) by {
                                                assert(ms0[newa[j2] as int].remap_output()[b2]
                                                    == y);
                                            }
                                            assert(0 <= j2 < newa.len() && (newa[j2] as int)
                                                < ms0.len() && ms0[
                                                newa[j2] as int
                                            ].remap_output().contains(k2));
                                        }
                                    }
                                }
                            }
                            assert forall|j2: int|
                                0 <= j2 < newa.len() && olda.contains(newa[j2]) implies seq_subset(
                                ms0[(#[trigger] newa[j2]) as int].remap_output(),
                                self.emitted_down@,
                            ) by {
                                assert(seq_subset(ms0[newa[j2] as int].remap_output(), emprev));
                                assert forall|b2: int|
                                    0 <= b2 < ms0[newa[j2] as int].remap_output().len() implies
                                    self.emitted_down@.contains(
                                    #[trigger] ms0[newa[j2] as int].remap_output()[b2],
                                ) by {
                                    let y = ms0[newa[j2] as int].remap_output()[b2];
                                    assert(emprev.contains(y));
                                    assert(y != k2) by {
                                        if y == k2 {
                                            assert(ms0[newa[j2] as int].remap_output().contains(
                                                y,
                                            )) by {
                                                assert(ms0[newa[j2] as int].remap_output()[b2]
                                                    == y);
                                            }
                                            assert(0 <= j2 < newa.len() && (newa[j2] as int)
                                                < ms0.len() && ms0[
                                                newa[j2] as int
                                            ].remap_output().contains(k2));
                                        }
                                    }
                                }
                            }
                            let ev = OutputEvent::Key {
                                time: t,
                                code: k2,
                                state: KeyState::Release,
                            };
                            assert(key_set(emj).contains(k2) && !required_output(
                                ms0,
                                newa,
                                hd0,
                                k2,
                            ) && !inp@.take(a as int).contains(k2));
                            assert(retract_seq(ms0, newa, hd0, inp@.take(a + 1), key_set(emj), t)
                                == retract_seq(
                                ms0,
                                newa,
                                hd0,
                                inp@.take(a as int),
                                key_set(emj),
                                t,
                            ).push(ev));
                            assert(out@ =~= outj + retract_seq(
                                ms0,
                                newa,
                                hd0,
                                inp@.take(a + 1),
                                key_set(emj),
                                t,
                            ));
                            assert(em_after_sweep(
                                self.emitted_down@,
                                key_set(emj),
                                ms0,
                                newa,
                                hd0,
                                inp@.take(a + 1),
                            )) by {
                                assert forall|x: KeyCode|
                                    #[trigger] self.emitted_down@.contains(x) == (key_set(
                                        emj,
                                    ).contains(x) && !(inp@.take(a + 1).contains(x)
                                        && !required_output(ms0, newa, hd0, x))) by {
                                    lemma_push_contains(inp@.take(a as int), k2, x);
                                    assert(emprev.contains(x) == (key_set(emj).contains(x) && !(
                                    inp@.take(a as int).contains(x) && !required_output(
                                        ms0,
                                        newa,
                                        hd0,
                                        x,
                                    ))));
                                    if x != k2 {
                                        assert(self.emitted_down@.contains(x) == emprev.contains(
                                            x,
                                        ));
                                    }
                                }
                            }
                        }
                    } else {
                        proof {
                            assert(!(key_set(emj).contains(k2) && !required_output(
                                ms0,
                                newa,
                                hd0,
                                k2,
                            ) && !inp@.take(a as int).contains(k2))) by {
                                if key_set(emj).contains(k2) && !required_output(
                                    ms0,
                                    newa,
                                    hd0,
                                    k2,
                                ) && !inp@.take(a as int).contains(k2) {
                                    assert(self.emitted_down@.contains(k2));
                                }
                            }
                            assert(retract_seq(ms0, newa, hd0, inp@.take(a + 1), key_set(emj), t)
                                == retract_seq(
                                ms0,
                                newa,
                                hd0,
                                inp@.take(a as int),
                                key_set(emj),
                                t,
                            ));
                            assert(em_after_sweep(
                                self.emitted_down@,
                                key_set(emj),
                                ms0,
                                newa,
                                hd0,
                                inp@.take(a + 1),
                            )) by {
                                assert forall|x: KeyCode|
                                    #[trigger] self.emitted_down@.contains(x) == (key_set(
                                        emj,
                                    ).contains(x) && !(inp@.take(a + 1).contains(x)
                                        && !required_output(ms0, newa, hd0, x))) by {
                                    lemma_push_contains(inp@.take(a as int), k2, x);
                                    assert(self.emitted_down@.contains(x) == (key_set(
                                        emj,
                                    ).contains(x) && !(inp@.take(a as int).contains(x)
                                        && !required_output(ms0, newa, hd0, x))));
                                }
                            }
                        }
                    }
                    a += 1;
                }
                let ghost emb = self.emitted_down@;
                let ghost outb = out@;
                proof {
                    assert(inp@.take(inp@.len() as int) =~= inp@);
                    assert(out@ =~= outb + press_expansion(outp@.take(0), key_set(emb), t));
                }
                let mut b: usize = 0;
                while b < outp.len()
                    invariant
                        0 <= j < newa.len(),
                        newa[j as int] == idx,
                        forall|j2: int|
                            0 <= j2 < newa.len() ==> (#[trigger] newa[j2] as int) < ms0.len(),
                        batch_inv(e0, allowed, out@, self.emitted_down@),
                        0 <= b <= outp@.len(),
                        inp@ == ms0[idx as int].remap_input(),
                        outp@ == ms0[idx as int].remap_output(),
                        0 <= idx < ms0.len(),
                        ms0[idx as int] is Remap,
                        newa.contains(idx),
                        new_active@ == newa,
                        self.mappings@ == ms0,
                        self.physical_down@ == ph0,
                        self.active_remaps@ == olda,
                        self.held_duals@ == hd0,
                        self.hold_threshold == th0,
                        self.pending_dual == pd0,
                        table_wf(ms0),
                        forall|x: KeyCode| rule_output_key(ms0, x) ==> allowed.contains(x),
                        forall|j2: int|
                            0 <= j2 < olda.len() ==> ((#[trigger] olda[j2] as int) < ms0.len()
                                && ms0[olda[j2] as int] is Remap),
                        forall|d2: int|
                            0 <= d2 < hd0.len() ==> is_dual_input(ms0, #[trigger] hd0[d2]),
                        em_just_mixed(ms0, ph0, olda, newa, hd0, self.emitted_down@),
                        em_dual_free(ms0, self.emitted_down@),
                        forall|b2: int|
                            0 <= b2 < b ==> self.emitted_down@.contains(#[trigger] outp@[b2]),
                        forall|j2: int|
                            0 <= j2 < j ==> seq_subset(
                                ms0[(#[trigger] newa[j2]) as int].remap_output(),
                                self.emitted_down@,
                            ),
                        forall|j2: int|
                            0 <= j2 < newa.len() && olda.contains(newa[j2]) ==> seq_subset(
                                ms0[(#[trigger] newa[j2]) as int].remap_output(),
                                self.emitted_down@,
                            ),
                        out@ == outb + press_expansion(outp@.take(b as int), key_set(emb), t),
                        em_tracks(self.emitted_down@, emb, outp@.take(b as int)),
                    decreases outp@.len() - b,
                {
                    let k2 = outp[b];
                    proof {
                        assert(ms0[idx as int].remap_output().contains(k2)) by {
                            assert(outp@[b as int] == k2);
                        }
                        assert(in_some_remap_output(ms0, k2));
                        assert(rule_output_key(ms0, k2));
                        assert(outp@.take(b + 1).drop_last() =~= outp@.take(b as int));
                        assert(outp@.take(b + 1).last() == k2);
                        assert(outp@.take(b + 1) =~= outp@.take(b as int).push(k2));
                        assert(em_tracks(self.emitted_down@, emb, outp@.take(b as int)));
                        assert(self.emitted_down@.contains(k2) == (emb.contains(k2)
                            || outp@.take(b as int).contains(k2)));
                    }
                    let ghost emprev = self.emitted_down@;
                    if !contains_key(&self.emitted_down, k2) {
                        emit_key(
                            out,
                            &mut self.emitted_down,
                            Ghost(e0),
                            Ghost(allowed),
                            t,
                            k2,
                            KeyState::Press,
                        );
                        proof {
                            let emn = self.emitted_down@;
                            assert(emn == emprev.push(k2));
                            assert forall|j3: int|
                                0 <= j3 < emn.len() implies (justified_key(
                                ms0,
                                ph0,
                                olda,
                                hd0,
                                #[trigger] emn[j3],
                            ) || required_output(ms0, newa, hd0, emn[j3])) && !is_dual_input(
                                ms0,
                                emn[j3],
                            ) by {
                                let x = emn[j3];
                                if j3 < emprev.len() {
                                    assert(emn[j3] == emprev[j3]);
                                    assert(justified_key(ms0, ph0, olda, hd0, emprev[j3])
                                        || required_output(ms0, newa, hd0, emprev[j3]));
                                    assert(!is_dual_input(ms0, emprev[j3]));
                                } else {
                                    assert(x == k2);
                                    let jw = choose|jw: int|
                                        0 <= jw < newa.len() && newa[jw] == idx;
                                    assert(required_output(ms0, newa, hd0, k2)) by {
                                        assert(0 <= jw < newa.len() && (newa[jw] as int)
                                            < ms0.len() && ms0[
                                            newa[jw] as int
                                        ].remap_output().contains(k2));
                                    }
                                    if is_dual_input(ms0, k2) {
                                        lemma_dual_not_in_rules(ms0, k2);
                                    }
                                }
                            }
                            assert forall|b2: int|
                                0 <= b2 < b + 1 implies self.emitted_down@.contains(
                                #[trigger] outp@[b2],
                            ) by {
                                lemma_push_contains(emprev, k2, outp@[b2]);
                                if b2 < b {
                                    assert(emprev.contains(outp@[b2]));
                                }
                            }
                            assert forall|j2: int|
                                0 <= j2 < j implies seq_subset(
                                ms0[(#[trigger] newa[j2]) as int].remap_output(),
                                self.emitted_down@,
                            ) by {
                                assert(seq_subset(ms0[newa[j2] as int].remap_output(), emprev));
                                assert forall|b2: int|
                                    0 <= b2 < ms0[newa[j2] as int].remap_output().len() implies
                                    self.emitted_down@.contains(
                                    #[trigger] ms0[newa[j2] as int].remap_output()[b2],
                                ) by {
                                    lemma_push_contains(
                                        emprev,
                                        k2,
                                        ms0[newa[j2] as int].remap_output()[b2],
                                    );
                                }
                            }
                            assert forall|j2: int|
                                0 <= j2 < newa.len() && olda.contains(newa[j2]) implies seq_subset(
                                ms0[(#[trigger] newa[j2]) as int].remap_output(),
                                self.emitted_down@,
                            ) by {
                                assert(seq_subset(ms0[newa[j2] as int].remap_output(), emprev));
                                assert forall|b2: int|
                                    0 <= b2 < ms0[newa[j2] as int].remap_output().len() implies
                                    self.emitted_down@.contains(
                                    #[trigger] ms0[newa[j2] as int].remap_output()[b2],
                                ) by {
                                    lemma_push_contains(
                                        emprev,
                                        k2,
                                        ms0[newa[j2] as int].remap_output()[b2],
                                    );
                                }
                            }
                            assert(!(key_set(emb).contains(k2) || outp@.take(
                                b as int,
                            ).contains(k2)));
                            assert(press_expansion(outp@.take(b + 1), key_set(emb), t)
                                == press_expansion(outp@.take(b as int), key_set(emb), t).push(
                                OutputEvent::Key { time: t, code: k2, state: KeyState::Press },
                            ));
                            assert(out@ =~= outb + press_expansion(
                                outp@.take(b + 1),
                                key_set(emb),
                                t,
                            ));
                            assert(em_tracks(self.emitted_down@, emb, outp@.take(b + 1))) by {
                                assert forall|x: KeyCode|
                                    #[trigger] self.emitted_down@.contains(x) == (emb.contains(x)
                                        || outp@.take(b + 1).contains(x)) by {
                                    lemma_push_contains(emprev, k2, x);
                                    lemma_push_contains(outp@.take(b as int), k2, x);
                                    assert(emprev.contains(x) == (emb.contains(x) || outp@.take(
                                        b as int,
                                    ).contains(x)));
                                }
                            }
                        }
                    } else {
                        proof {
                            assert forall|b2: int|
                                0 <= b2 < b + 1 implies self.emitted_down@.contains(
                                #[trigger] outp@[b2],
                            ) by {}
                            assert(key_set(emb).contains(k2) || outp@.take(b as int).contains(
                                k2,
                            ));
                            assert(press_expansion(outp@.take(b + 1), key_set(emb), t)
                                == press_expansion(outp@.take(b as int), key_set(emb), t));
                            assert(em_tracks(self.emitted_down@, emb, outp@.take(b + 1))) by {
                                assert forall|x: KeyCode|
                                    #[trigger] self.emitted_down@.contains(x) == (emb.contains(x)
                                        || outp@.take(b + 1).contains(x)) by {
                                    lemma_push_contains(outp@.take(b as int), k2, x);
                                    assert(self.emitted_down@.contains(x) == (emb.contains(x)
                                        || outp@.take(b as int).contains(x)));
                                }
                            }
                        }
                    }
                    b += 1;
                }
                proof {
                    if lone_activation(olda, newa, idx) {
                        assert(!newa.take(j as int).contains(idx)) by {
                            if newa.take(j as int).contains(idx) {
                                let j2 = choose|j2: int|
                                    0 <= j2 < j && newa.take(j as int)[j2] == idx;
                                assert(newa[j2] == idx);
                                assert(newa[j as int] == idx);
                            }
                        }
                        assert(outj == out_in && emj == em_in);
                        assert(outp@.take(outp@.len() as int) =~= outp@);
                        assert(inp@.take(inp@.len() as int) =~= inp@);
                        assert(key_set(emb) =~= retracted_em(
                            ms0,
                            newa,
                            hd0,
                            inp@,
                            key_set(emj),
                        ));
                        assert(out@ =~= out_in + chord_on_batch(
                            ms0,
                            newa,
                            hd0,
                            idx as int,
                            key_set(em_in),
                            t,
                        ));
                        assert(em_after_chord(
                            self.emitted_down@,
                            key_set(em_in),
                            ms0,
                            newa,
                            hd0,
                            idx as int,
                        )) by {
                            assert forall|x: KeyCode|
                                #[trigger] self.emitted_down@.contains(x) == (retracted_em(
                                    ms0,
                                    newa,
                                    hd0,
                                    ms0[idx as int].remap_input(),
                                    key_set(em_in),
                                ).contains(x) || ms0[idx as int].remap_output().contains(x)) by {
                                assert(self.emitted_down@.contains(x) == (emb.contains(x)
                                    || outp@.take(outp@.len() as int).contains(x)));
                                assert(emb.contains(x) == key_set(emb).contains(x));
                            }
                        }
                    }
                }
            } else {
                proof {
                    assert(olda.contains(idx));
                    assert(seq_subset(ms0[idx as int].remap_output(), self.emitted_down@)) by {
                        assert(newa.contains(idx)) by { assert(newa[j as int] == idx) };
                    }
                }
            }
            proof {
                assert forall|j2: int|
                    0 <= j2 < j + 1 implies seq_subset(
                    ms0[(#[trigger] newa[j2]) as int].remap_output(),
                    self.emitted_down@,
                ) by {
                    if j2 == j {
                        assert(newa[j2] == idx);
                    }
                }
                assert(newa.take(j + 1) =~= newa.take(j as int).push(idx));
                assert forall|r: usize|
                    lone_activation(olda, newa, r) && newa.take(j + 1).contains(r) implies (out@
                        == out_in + chord_on_batch(ms0, newa, hd0, r as int, key_set(em_in), t)
                        && em_after_chord(
                        self.emitted_down@,
                        key_set(em_in),
                        ms0,
                        newa,
                        hd0,
                        r as int,
                    )) by {
                    lemma_index_push_contains(newa.take(j as int), idx, r);
                    if !newa.take(j as int).contains(r) {
                        assert(r == idx);
                        if olda.contains(idx) {
                            assert(false);
                        }
                    } else {
                        if r != idx && !olda.contains(idx) {
                            assert(newa.contains(idx)) by { assert(newa[j as int] == idx) };
                            assert(newa.contains((idx as int) as usize) == olda.contains(
                                (idx as int) as usize,
                            ));
                            assert(false);
                        }
                    }
                }
                assert forall|r: usize|
                    lone_activation(olda, newa, r) && !newa.take(j + 1).contains(r) implies (out@
                        == out_in && self.emitted_down@ == em_in) by {
                    lemma_index_push_contains(newa.take(j as int), idx, r);
                    assert(r != idx);
                    if !olda.contains(idx) {
                        assert(newa.contains(idx)) by { assert(newa[j as int] == idx) };
                        assert(newa.contains((idx as int) as usize) == olda.contains(
                            (idx as int) as usize,
                        ));
                        assert(false);
                    }
                }
                assert forall|r: usize|
                    lone_deactivation(olda, newa, r) implies (out@ == out_in
                        && self.emitted_down@ == em_in) by {
                    if r == idx {
                        assert(newa.contains(idx)) by { assert(newa[j as int] == idx) };
                    } else {
                        if !olda.contains(idx) {
                            assert(newa.contains(idx)) by { assert(newa[j as int] == idx) };
                            assert(newa.contains((idx as int) as usize) == olda.contains(
                                (idx as int) as usize,
                            ));
                            assert(false);
                        }
                    }
                }
            }
            j += 1;
        }
        proof {
            assert(newa.take(newa.len() as int) =~= newa);
        }
        proof {
            assert(em_just_sweep(ms0, ph0, newa, hd0, olda, 0, self.emitted_down@)) by {
                let em = self.emitted_down@;
                assert forall|j3: int|
                    0 <= j3 < em.len() implies ph0.contains(#[trigger] em[j3])
                    || required_output(ms0, newa, hd0, em[j3]) || (exists|d2: int|
                    #![trigger olda[d2]]
                    0 <= d2 < olda.len() && !newa.contains(olda[d2]) && (olda[d2] as int)
                        < ms0.len() && ms0[olda[d2] as int].remap_output().contains(
                        em[j3],
                    )) by {
                    let x = em[j3];
                    if !ph0.contains(x) && !required_output(ms0, newa, hd0, x) {
                        assert(justified_key(ms0, ph0, olda, hd0, x));
                        assert(required_output(ms0, olda, hd0, x));
                        if exists|j4: int|
                            #![trigger olda[j4]]
                            0 <= j4 < olda.len() && (olda[j4] as int) < ms0.len() && ms0[olda[
                                j4
                            ] as int].remap_output().contains(x) {
                            let j4 = choose|j4: int|
                                #![trigger olda[j4]]
                                0 <= j4 < olda.len() && (olda[j4] as int) < ms0.len() && ms0[
                                    olda[j4] as int
                                ].remap_output().contains(x);
                            assert(!newa.contains(olda[j4])) by {
                                if newa.contains(olda[j4]) {
                                    let jw = choose|jw: int|
                                        0 <= jw < newa.len() && newa[jw] == olda[j4];
                                    assert(required_output(ms0, newa, hd0, x)) by {
                                        assert(0 <= jw < newa.len() && (newa[jw] as int)
                                            < ms0.len() && ms0[
                                            newa[jw] as int
                                        ].remap_output().contains(x));
                                    }
                                }
                            }
                        } else {
                            assert(required_output(ms0, newa, hd0, x));
                            assert(false);
                        }
                    }
                }
            }
        }
        let ghost em_mid = self.emitted_down@;
        let ghost out_mid = out@;
        let mut d: usize = 0;
        while d < self.active_remaps.len()
            invariant
                forall|j2: int| 0 <= j2 < newa.len() ==> (#[trigger] newa[j2] as int) < ms0.len(),
                batch_inv(e0, allowed, out@, self.emitted_down@),
                0 <= d <= olda.len(),
                olda.no_duplicates(),
                new_active@ == newa,
                self.mappings@ == ms0,
                self.physical_down@ == ph0,
                self.active_remaps@ == olda,
                self.held_duals@ == hd0,
                self.hold_threshold == th0,
                self.pending_dual == pd0,
                table_wf(ms0),
                forall|x: KeyCode| rule_output_key(ms0, x) ==> allowed.contains(x),
                forall|j2: int|
                    0 <= j2 < olda.len() ==> ((#[trigger] olda[j2] as int) < ms0.len() && ms0[
                        olda[j2] as int
                    ] is Remap),
                forall|d2: int| 0 <= d2 < hd0.len() ==> is_dual_input(ms0, #[trigger] hd0[d2]),
                em_just_sweep(ms0, ph0, newa, hd0, olda, d as int, self.emitted_down@),
                em_dual_free(ms0, self.emitted_down@),
                outputs_emitted(ms0, newa, self.emitted_down@),
                same ==> (out@ == out_mid && self.emitted_down@ == em_mid),
                same ==> (out_mid == out_in && em_mid == em_in),
                same == (forall|i: int|
                    0 <= i < ms0.len() ==> ((#[trigger] newa.contains(i as usize))
                        == olda.contains(i as usize))),
                forall|r: usize|
                    #![trigger lone_activation(olda, newa, r)]
                    lone_activation(olda, newa, r) ==> (out@ == out_in + chord_on_batch(
                        ms0,
                        newa,
                        hd0,
                        r as int,
                        key_set(em_in),
                        t,
                    ) && em_after_chord(
                        self.emitted_down@,
                        key_set(em_in),
                        ms0,
                        newa,
                        hd0,
                        r as int,
                    )),
                forall|r: usize|
                    #![trigger lone_deactivation(olda, newa, r)]
                    lone_deactivation(olda, newa, r) && !olda.take(d as int).contains(r) ==> (out@
                        == out_in && self.emitted_down@ == em_in),
                forall|r: usize|
                    #![trigger lone_deactivation(olda, newa, r)]
                    lone_deactivation(olda, newa, r) && olda.take(d as int).contains(r) ==> (out@
                        == out_in + retract_seq(
                        ms0,
                        newa,
                        hd0,
                        ms0[r as int].remap_output(),
                        key_set(em_in),
                        t,
                    ) && em_after_sweep(
                        self.emitted_down@,
                        key_set(em_in),
                        ms0,
                        newa,
                        hd0,
                        ms0[r as int].remap_output(),
                    )),
            decreases olda.len() - d,
        {
            let idx = self.active_remaps[d];
            if !contains_index(&new_active, idx) {
                proof {
                    if same {
                        assert(olda.contains(idx)) by { assert(olda[d as int] == idx) };
                        assert(0 <= (idx as int) < ms0.len()) by {
                            assert((olda[d as int] as int) < ms0.len());
                        }
                        assert(newa.contains((idx as int) as usize) == olda.contains(
                            (idx as int) as usize,
                        ));
                        assert(newa.contains(idx));
                        assert(false);
                    }
                }
                let (_inp2, outp2) = remap_parts(&self.mappings[idx]);
                let ghost emc = self.emitted_down@;
                let ghost outc = out@;
                proof {
                    assert(out@ =~= outc + retract_seq(
                        ms0,
                        newa,
                        hd0,
                        outp2@.take(0),
                        key_set(emc),
                        t,
                    ));
                }
                let mut c: usize = 0;
                while c < outp2.len()
                    invariant
                        forall|j2: int|
                            0 <= j2 < newa.len() ==> (#[trigger] newa[j2] as int) < ms0.len(),
                        batch_inv(e0, allowed, out@, self.emitted_down@),
                        0 <= c <= outp2@.len(),
                        outp2@ == ms0[idx as int].remap_output(),
                        0 <= idx < ms0.len(),
                        ms0[idx as int] is Remap,
                        olda[d as int] == idx,
                        0 <= d < olda.len(),
                        !newa.contains(idx),
                        new_active@ == newa,
                        self.mappings@ == ms0,
                        self.physical_down@ == ph0,
                        self.active_remaps@ == olda,
                        self.held_duals@ == hd0,
                        self.hold_threshold == th0,
                        self.pending_dual == pd0,
                        table_wf(ms0),
                        forall|j2: int|
                            0 <= j2 < olda.len() ==> ((#[trigger] olda[j2] as int) < ms0.len()
                                && ms0[olda[j2] as int] is Remap),
                        forall|d2: int|
                            0 <= d2 < hd0.len() ==> is_dual_input(ms0, #[trigger] hd0[d2]),
                        em_just_sweep(ms0, ph0, newa, hd0, olda, d as int, self.emitted_down@),
                        em_dual_free(ms0, self.emitted_down@),
                        outputs_emitted(ms0, newa, self.emitted_down@),
                        forall|c2: int|
                            0 <= c2 < c ==> !self.emitted_down@.contains(#[trigger] outp2@[c2])
                                || required_output(ms0, newa, hd0, outp2@[c2]),
                        out@ == outc + retract_seq(
                            ms0,
                            newa,
                            hd0,
                            outp2@.take(c as int),
                            key_set(emc),
                            t,
                        ),
                        em_after_sweep(
                            self.emitted_down@,
                            key_set(emc),
                            ms0,
                            newa,
                            hd0,
                            outp2@.take(c as int),
                        ),
                    decreases outp2@.len() - c,
                {
                    let k2 = outp2[c];
                    proof {
                        assert(outp2@.take(c + 1).drop_last() =~= outp2@.take(c as int));
                        assert(outp2@.take(c + 1).last() == k2);
                        assert(outp2@.take(c + 1) =~= outp2@.take(c as int).push(k2));
                        assert(em_after_sweep(
                            self.emitted_down@,
                            key_set(emc),
                            ms0,
                            newa,
                            hd0,
                            outp2@.take(c as int),
                        ));
                        assert(self.emitted_down@.contains(k2) == (key_set(emc).contains(k2)
                            && !(outp2@.take(c as int).contains(k2) && !required_output(
                            ms0,
                            newa,
                            hd0,
                            k2,
                        ))));
                    }
                    let down = contains_key(&self.emitted_down, k2);
                    let needed = required_elsewhere(
                        &self.mappings,
                        &new_active,
                        &self.held_duals,
                        k2,
                    );
                    if down && !needed {
                        let ghost emprev = self.emitted_down@;
                        emit_key(
                            out,
                            &mut self.emitted_down,
                            Ghost(e0),
                            Ghost(allowed),
                            t,
                            k2,
                            KeyState::Release,
                        );
                        proof {
                            let emn = self.emitted_down@;
                            assert forall|j3: int|
                                0 <= j3 < emn.len() implies (ph0.contains(#[trigger] emn[j3])
                                || required_output(ms0, newa, hd0, emn[j3]) || (exists|d2: int|
                                #![trigger olda[d2]]
                                d <= d2 < olda.len() && !newa.contains(olda[d2]) && (olda[
                                    d2
                                ] as int) < ms0.len() && ms0[olda[d2] as int].remap_output(
                                ).contains(emn[j3]))) && !is_dual_input(ms0, emn[j3]) by {
                                let x = emn[j3];
                                assert(emn.contains(x));
                                assert(x != k2);
                                assert(emprev.contains(x));
                                let j4 = choose|j4: int|
                                    0 <= j4 < emprev.len() && emprev[j4] == x;
                                assert(emprev[j4] == x);
                                assert(em_just_sweep(ms0, ph0, newa, hd0, olda, d as int, emprev));
                                assert(!is_dual_input(ms0, emprev[j4]));
                            }
                            assert forall|jo: int|
                                0 <= jo < newa.len() implies seq_subset(
                                ms0[(#[trigger] newa[jo]) as int].remap_output(),
                                self.emitted_down@,
                            ) by {
                                assert(seq_subset(ms0[newa[jo] as int].remap_output(), emprev));
                                assert forall|b2: int|
                                    0 <= b2 < ms0[newa[jo] as int].remap_output().len() implies
                                    self.emitted_down@.contains(
                                    #[trigger] ms0[newa[jo] as int].remap_output()[b2],
                                ) by {
                                    let y = ms0[newa[jo] as int].remap_output()[b2];
                                    assert(emprev.contains(y));
                                    assert(y != k2) by {
                                        if y == k2 {
                                            assert(ms0[newa[jo] as int].remap_output().contains(
                                                y,
                                            )) by {
                                                assert(ms0[newa[jo] as int].remap_output()[b2]
                                                    == y);
                                            }
                                            assert(0 <= jo < newa.len() && (newa[jo] as int)
                                                < ms0.len() && ms0[
                                                newa[jo] as int
                                            ].remap_output().contains(k2));
                                        }
                                    }
                                }
                            }
                            assert forall|c2: int|
                                0 <= c2 < c + 1 implies !self.emitted_down@.contains(
                                #[trigger] outp2@[c2],
                            ) || required_output(ms0, newa, hd0, outp2@[c2]) by {
                                if c2 < c {
                                    if self.emitted_down@.contains(outp2@[c2]) {
                                        assert(emprev.contains(outp2@[c2]));
                                    }
                                }
                            }
                            let ev = OutputEvent::Key {
                                time: t,
                                code: k2,
                                state: KeyState::Release,
                            };
                            assert(key_set(emc).contains(k2) && !required_output(
                                ms0,
                                newa,
                                hd0,
                                k2,
                            ) && !outp2@.take(c as int).contains(k2));
                            assert(retract_seq(
                                ms0,
                                newa,
                                hd0,
                                outp2@.take(c + 1),
                                key_set(emc),
                                t,
                            ) == retract_seq(
                                ms0,
                                newa,
                                hd0,
                                outp2@.take(c as int),
                                key_set(emc),
                                t,
                            ).push(ev));
                            assert(out@ =~= outc + retract_seq(
                                ms0,
                                newa,
                                hd0,
                                outp2@.take(c + 1),
                                key_set(emc),
                                t,
                            ));
                            assert(em_after_sweep(
                                self.emitted_down@,
                                key_set(emc),
                                ms0,
                                newa,
                                hd0,
                                outp2@.take(c + 1),
                            )) by {
                                assert forall|x: KeyCode|
                                    #[trigger] self.emitted_down@.contains(x) == (key_set(
                                        emc,
                                    ).contains(x) && !(outp2@.take(c + 1).contains(x)
                                        && !required_output(ms0, newa, hd0, x))) by {
                                    lemma_push_contains(outp2@.take(c as int), k2, x);
                                    assert(emprev.contains(x) == (key_set(emc).contains(x) && !(
                                    outp2@.take(c as int).contains(x) && !required_output(
                                        ms0,
                                        newa,
                                        hd0,
                                        x,
                                    ))));
                                    if x != k2 {
                                        assert(self.emitted_down@.contains(x) == emprev.contains(
                                            x,
                                        ));
                                    }
                                }
                            }
                        }
                    } else {
                        proof {
                            assert forall|c2: int|
                                0 <= c2 < c + 1 implies !self.emitted_down@.contains(
                                #[trigger] outp2@[c2],
                            ) || required_output(ms0, newa, hd0, outp2@[c2]) by {}
                            assert(!(key_set(emc).contains(k2) && !required_output(
                                ms0,
                                newa,
                                hd0,
                                k2,
                            ) && !outp2@.take(c as int).contains(k2))) by {
                                if key_set(emc).contains(k2) && !required_output(
                                    ms0,
                                    newa,
                                    hd0,
                                    k2,
                                ) && !outp2@.take(c as int).contains(k2) {
                                    assert(self.emitted_down@.contains(k2));
                                }
                            }
                            assert(retract_seq(
                                ms0,
                                newa,
                                hd0,
                                outp2@.take(c + 1),
                                key_set(emc),
                                t,
                            ) == retract_seq(
                                ms0,
                                newa,
                                hd0,
                                outp2@.take(c as int),
                                key_set(emc),
                                t,
                            ));
                            assert(em_after_sweep(
                                self.emitted_down@,
                                key_set(emc),
                                ms0,
                                newa,
                                hd0,
                                outp2@.take(c + 1),
                            )) by {
                                assert forall|x: KeyCode|
                                    #[trigger] self.emitted_down@.contains(x) == (key_set(
                                        emc,
                                    ).contains(x) && !(outp2@.take(c + 1).contains(x)
                                        && !required_output(ms0, newa, hd0, x))) by {
                                    lemma_push_contains(outp2@.take(c as int), k2, x);
                                    assert(self.emitted_down@.contains(x) == (key_set(
                                        emc,
                                    ).contains(x) && !(outp2@.take(c as int).contains(x)
                                        && !required_output(ms0, newa, hd0, x))));
                                }
                            }
                        }
                    }
                    c += 1;
                }
                proof {
                    if lone_deactivation(olda, newa, idx) {
                        assert(!olda.take(d as int).contains(idx)) by {
                            if olda.take(d as int).contains(idx) {
                                let d3 = choose|d3: int|
                                    0 <= d3 < d && olda.take(d as int)[d3] == idx;
                                assert(olda[d3] == idx);
                                assert(olda[d as int] == idx);
                            }
                        }
                        assert(outc == out_in && emc == em_in);
                        assert(outp2@.take(outp2@.len() as int) =~= outp2@);
                        assert(out@ =~= out_in + retract_seq(
                            ms0,
                            newa,
                            hd0,
                            ms0[idx as int].remap_output(),
                            key_set(em_in),
                            t,
                        ));
                        assert(em_after_sweep(
                            self.emitted_down@,
                            key_set(em_in),
                            ms0,
                            newa,
                            hd0,
                            ms0[idx as int].remap_output(),
                        ));
                    }
                }
                proof {
                    assert forall|j3: int|
                        0 <= j3 < self.emitted_down@.len() implies ph0.contains(
                        #[trigger] self.emitted_down@[j3],
                    ) || required_output(ms0, newa, hd0, self.emitted_down@[j3]) || (exists|
                        d2: int,
                    |
                        #![trigger olda[d2]]
                        d + 1 <= d2 < olda.len() && !newa.contains(olda[d2]) && (olda[
                            d2
                        ] as int) < ms0.len() && ms0[olda[d2] as int].remap_output().contains(
                            self.emitted_down@[j3],
                        )) by {
                        let em = self.emitted_down@;
                        let x = em[j3];
                        if !ph0.contains(x) && !required_output(ms0, newa, hd0, x) {
                            let d2 = choose|d2: int|
                                #![trigger olda[d2]]
                                d <= d2 < olda.len() && !newa.contains(olda[d2]) && (olda[
                                    d2
                                ] as int) < ms0.len() && ms0[olda[d2] as int].remap_output(
                                ).contains(x);
                            if d2 == d {
                                let c2 = choose|c2: int|
                                    0 <= c2 < outp2@.len() && outp2@[c2] == x;
                                assert(em.contains(x)) by { assert(em[j3] == x) };
                                assert(false);
                            }
                        }
                    }
                }
            } else {
                proof {
                    assert forall|j3: int|
                        0 <= j3 < self.emitted_down@.len() implies ph0.contains(
                        #[trigger] self.emitted_down@[j3],
                    ) || required_output(ms0, newa, hd0, self.emitted_down@[j3]) || (exists|
                        d2: int,
                    |
                        #![trigger olda[d2]]
                        d + 1 <= d2 < olda.len() && !newa.contains(olda[d2]) && (olda[
                            d2
                        ] as int) < ms0.len() && ms0[olda[d2] as int].remap_output().contains(
                            self.emitted_down@[j3],
                        )) by {
                        let em = self.emitted_down@;
                        let x = em[j3];
                        if !ph0.contains(x) && !required_output(ms0, newa, hd0, x) {
                            let d2 = choose|d2: int|
                                #![trigger olda[d2]]
                                d <= d2 < olda.len() && !newa.contains(olda[d2]) && (olda[
                                    d2
                                ] as int) < ms0.len() && ms0[olda[d2] as int].remap_output(
                                ).contains(x);
                            assert(d2 != d) by {
                                if d2 == d {
                                    assert(newa.contains(idx)) by {
                                        assert(new_active@.contains(idx));
                                    }
                                }
                            }
                        }
                    }
                }
            }
            proof {
                assert(olda.take(d + 1) =~= olda.take(d as int).push(idx));
                assert forall|r: usize|
                    lone_deactivation(olda, newa, r) && olda.take(d + 1).contains(r) implies (out@
                        == out_in + retract_seq(
                        ms0,
                        newa,
                        hd0,
                        ms0[r as int].remap_output(),
                        key_set(em_in),
                        t,
                    ) && em_after_sweep(
                        self.emitted_down@,
                        key_set(em_in),
                        ms0,
                        newa,
                        hd0,
                        ms0[r as int].remap_output(),
                    )) by {
                    lemma_index_push_contains(olda.take(d as int), idx, r);
                    if !olda.take(d as int).contains(r) {
                        assert(r == idx);
                        if newa.contains(idx) {
                            assert(false);
                        }
                    } else {
                        if r != idx && newa.contains(idx) {
                        } else if r != idx {
                            assert(olda.contains(idx)) by { assert(olda[d as int] == idx) };
                            assert(newa.contains((idx as int) as usize) == olda.contains(
                                (idx as int) as usize,
                            ));
                            assert(false);
                        }
                    }
                }
                assert forall|r: usize|
                    lone_deactivation(olda, newa, r) && !olda.take(d + 1).contains(r) implies (
                    out@ == out_in && self.emitted_down@ == em_in) by {
                    lemma_index_push_contains(olda.take(d as int), idx, r);
                    assert(r != idx);
                    if !newa.contains(idx) {
                        assert(olda.contains(idx)) by { assert(olda[d as int] == idx) };
                        assert(newa.contains((idx as int) as usize) == olda.contains(
                            (idx as int) as usize,
                        ));
                        assert(false);
                    }
                }
                assert forall|r: usize|
                    lone_activation(olda, newa, r) implies (out@ == out_in + chord_on_batch(
                        ms0,
                        newa,
                        hd0,
                        r as int,
                        key_set(em_in),
                        t,
                    ) && em_after_chord(
                        self.emitted_down@,
                        key_set(em_in),
                        ms0,
                        newa,
                        hd0,
                        r as int,
                    )) by {
                    if r == idx {
                        assert(olda.contains(idx)) by { assert(olda[d as int] == idx) };
                    } else {
                        if !newa.contains(idx) {
                            assert(olda.contains(idx)) by { assert(olda[d as int] == idx) };
                            assert(newa.contains((idx as int) as usize) == olda.contains(
                                (idx as int) as usize,
                            ));
                            assert(false);
                        }
                    }
                }
            }
            d += 1;
        }
        proof {
            assert(olda.take(olda.len() as int) =~= olda);
        }
        self.active_remaps = new_active;
        proof {
            assert forall|j3: int|
                0 <= j3 < self.emitted_down@.len() implies justified_key(
                ms0,
                ph0,
                newa,
                hd0,
                #[trigger] self.emitted_down@[j3],
            ) by {
                let x = self.emitted_down@[j3];
                if !ph0.contains(x) && !required_output(ms0, newa, hd0, x) {
                    assert(em_just_sweep(
                        ms0,
                        ph0,
                        newa,
                        hd0,
                        olda,
                        olda.len() as int,
                        self.emitted_down@,
                    ));
                    let d2 = choose|d2: int|
                        #![trigger olda[d2]]
                        olda.len() <= d2 < olda.len() && !newa.contains(olda[d2]) && (olda[
                            d2
                        ] as int) < ms0.len() && ms0[olda[d2] as int].remap_output().contains(x);
                    assert(false);
                }
            }
        }
    }

}

/// Balance: in a well-formed engine state where every physical key has been
/// released, no key stays reported down on the output device.
pub proof fn lemma_balance(e: Engine)
    requires
        e.wf(),
        e.physical_down@.len() == 0,
    ensures
        e.emitted_down@.len() == 0,
{
    if e.emitted_down@.len() > 0 {
        let ms = e.mappings@;
        let x = e.emitted_down@[0];
        assert(justified_key(ms, e.physical_down@, e.active_remaps@, e.held_duals@, x));
        if e.physical_down@.contains(x) {
            let i = choose|i: int| 0 <= i < e.physical_down@.len() && e.physical_down@[i] == x;
            assert(false);
        } else {
            if exists|j: int|
                #![trigger e.active_remaps@[j]]
                0 <= j < e.active_remaps@.len() && (e.active_remaps@[j] as int) < ms.len()
                    && ms[e.active_remaps@[j] as int].remap_output().contains(x) {
                let j = choose|j: int|
                    #![trigger e.active_remaps@[j]]
                    0 <= j < e.active_remaps@.len() && (e.active_remaps@[j] as int) < ms.len()
                        && ms[e.active_remaps@[j] as int].remap_output().contains(x);
                assert(satisfied(ms, e.physical_down@, e.active_remaps@[j] as int));
                let inp = ms[e.active_remaps@[j] as int].remap_input();
                assert(inp.len() > 0);
                assert(e.physical_down@.contains(inp[0]));
                let i = choose|i: int|
                    0 <= i < e.physical_down@.len() && e.physical_down@[i] == inp[0];
                assert(false);
            } else {
                let (d, i) = choose|d: int, i: int|
                    #![trigger e.held_duals@[d], ms[i]]
                    0 <= d < e.held_duals@.len() && 0 <= i < ms.len() && ms[i].is_dual() && ms[
                        i
                    ].dual_input() == e.held_duals@[d] && ms[i].hold_keys().contains(x);
                assert(e.physical_down@.contains(e.held_duals@[d]));
                let i2 = choose|i2: int|
                    0 <= i2 < e.physical_down@.len() && e.physical_down@[i2] == e.held_duals@[d];
                assert(false);
            }
        }
    }
}

/// Counting splits over concatenation of batches.
pub proof fn lemma_count_concat(s1: Seq<OutputEvent>, s2: Seq<OutputEvent>, k: KeyCode, st: KeyState)
    ensures
        count_in(s1 + s2, k, st) == count_in(s1, k, st) + count_in(s2, k, st),
    decreases s2.len(),
{
    if s2.len() == 0 {
        assert(s1 + s2 =~= s1);
    } else {
        lemma_count_concat(s1, s2.drop_last(), k, st);
        assert((s1 + s2).drop_last() =~= s1 + s2.drop_last());
        assert((s1 + s2).last() == s2.last());
    }
}

/// Two consecutive well-formed batches compose: the concatenation is
/// balanced against the starting set, stays properly framed, and its net
/// effect is the second batch's net effect on the first one's outcome.
#[verifier::rlimit(100)]
pub proof fn lemma_batch_compose(
    e0: Set<KeyCode>,
    s1: Seq<OutputEvent>,
    em1: Seq<KeyCode>,
    s2: Seq<OutputEvent>,
)
    requires
        well_formed_batch(e0, s1),
        forall|k: KeyCode| #[trigger] down_count(e0, s1, k) == b2i(em1.contains(k)),
        well_formed_batch(key_set(em1), s2),
        batch_framed(s1),
        batch_framed(s2),
    ensures
        well_formed_batch(e0, s1 + s2),
        batch_framed(s1 + s2),
        forall|k: KeyCode|
            #[trigger] down_count(e0, s1 + s2, k) == down_count(key_set(em1), s2, k),
{
    let s = s1 + s2;
    assert forall|k: KeyCode| #[trigger]
        down_count(e0, s, k) == down_count(key_set(em1), s2, k) by {
        lemma_count_concat(s1, s2, k, KeyState::Press);
        lemma_count_concat(s1, s2, k, KeyState::Release);
        assert(down_count(e0, s1, k) == b2i(em1.contains(k)));
        assert(key_set(em1).contains(k) == em1.contains(k));
    }
    assert forall|i: int| 0 <= i < s.len() implies #[trigger] wf_at(e0, s, i) by {
        if i < s1.len() {
            assert(wf_at(e0, s1, i));
            assert(s.take(i) =~= s1.take(i));
            assert(s[i] == s1[i]);
        } else {
            assert(wf_at(key_set(em1), s2, i - s1.len()));
            assert(s[i] == s2[i - s1.len()]);
            assert(s.take(i) =~= s1 + s2.take(i - s1.len()));
            match s[i] {
                OutputEvent::Key { code, state, .. } => {
                    lemma_count_concat(s1, s2.take(i - s1.len()), code, KeyState::Press);
                    lemma_count_concat(s1, s2.take(i - s1.len()), code, KeyState::Release);
                    assert(down_count(e0, s1, code) == b2i(em1.contains(code)));
                    assert(key_set(em1).contains(code) == em1.contains(code));
                    assert(down_count(e0, s.take(i), code) == down_count(
                        key_set(em1),
                        s2.take(i - s1.len()),
                        code,
                    ));
                },
                OutputEvent::Syn { .. } => {},
            }
        }
    }
    assert(no_empty_syn(s)) by {
        assert forall|i: int| 0 <= i < s.len() && (#[trigger] s[i]) is Syn implies i > 0 && !(
        s[i - 1] is Syn) by {
            if i < s1.len() {
                assert(s[i] == s1[i]);
                assert(s1[i - 1] == s[i - 1]);
            } else if i == s1.len() {
                assert(s[i] == s2[0]);
                assert(!(s2[0] is Syn));
            } else {
                assert(s[i] == s2[i - s1.len()]);
                assert(s[i - 1] == s2[i - s1.len() - 1]);
            }
        }
    }
    if s.len() > 0 {
        if s2.len() > 0 {
            assert(s.last() == s2.last());
        } else {
            assert(s =~= s1);
            assert(s.last() == s1.last());
        }
    }
}

} // verus!
