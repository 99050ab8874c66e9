//! One round of the wavefront: expand the frontier into effects,
//! resolve them target by target, commit, and find the next frontier.
//!
//! The state is bit-packed. What the effects of a round ask of a word
//! is gathered in three masks (disable, enable, toggle parity), and a
//! word is committed in one step. Bit by bit this is the commutative
//! precedence: Disable over Enable over the parity of the Toggles.

use vstd::prelude::*;
use crate::chunk::{Action, Trigger};
use crate::cpu_ref::act;
use crate::csr::{effect_aligned, offsets_monotone, Effect, CSR};
use crate::layout::{bit_of_words, lemma_word_bit_ops, word_bit, word_bit_at, words_for};
use crate::policy::{resolve, toggle_count};

verus! {

/// The events waiting to be expanded, as source numbers, one queue per
/// edge.
#[derive(Debug, Clone)]
pub struct Frontier {
    pub on: Vec<u32>,
    pub off: Vec<u32>,
    pub toggle: Vec<u32>,
}

/// The state between two rounds: the internal and the output words,
/// and the three frontier queues.
pub struct Wave {
    pub internal: Seq<u32>,
    pub output: Seq<u32>,
    pub on: Seq<u32>,
    pub off: Seq<u32>,
    pub toggle: Seq<u32>,
}

impl Wave {
    /// No event waits.
    pub open spec fn quiet(self) -> bool {
        self.on.len() == 0 && self.off.len() == 0 && self.toggle.len() == 0
    }

    /// Every waiting event names a source below `src_total`.
    pub open spec fn sources_below(self, src_total: int) -> bool {
        &&& forall|i: int| 0 <= i < self.on.len() ==> (#[trigger] self.on[i]) < src_total
        &&& forall|i: int| 0 <= i < self.off.len() ==> (#[trigger] self.off[i]) < src_total
        &&& forall|i: int| 0 <= i < self.toggle.len() ==> (#[trigger] self.toggle[i]) < src_total
    }
}

impl CSR {
    /// The adjacency is fit to drive a chunk with `src_total` sources,
    /// `no` output and `nn` internal bits: its offset arrays have one
    /// entry per source plus one, never decrease and end inside the
    /// effects, and every effect is aligned and aims at a bit that
    /// exists.
    pub open spec fn serves(&self, src_total: int, no: u32, nn: u32) -> bool {
        &&& self.offs_on@.len() == src_total + 1
        &&& self.offs_off@.len() == src_total + 1
        &&& self.offs_tog@.len() == src_total + 1
        &&& offsets_monotone(self.offs_on@)
        &&& offsets_monotone(self.offs_off@)
        &&& offsets_monotone(self.offs_tog@)
        &&& self.offs_on@.last() <= self.effects@.len()
        &&& self.offs_off@.last() <= self.effects@.len()
        &&& self.offs_tog@.last() <= self.effects@.len()
        &&& forall|k: int|
            0 <= k < self.effects@.len() ==> effect_aligned(#[trigger] self.effects@[k])
                && self.effects@[k].to_bit < (if self.effects@[k].to_is_internal {
                nn
            } else {
                no
            })
    }
}

/// The effects that the events of one queue expand to: the buckets of
/// its sources under `t`, in queue order.
pub open spec fn stage(csr: &CSR, t: Trigger, queue: Seq<u32>) -> Seq<Effect>
    decreases queue.len(),
{
    if queue.len() == 0 {
        Seq::empty()
    } else {
        stage(csr, t, queue.drop_last()) + csr.bucket(t, queue.last() as int)
    }
}

/// All the effects of a round: those of the On queue, then the Off
/// queue, then the Toggle queue.
pub open spec fn staged(csr: &CSR, w: Wave) -> Seq<Effect> {
    stage(csr, Trigger::On, w.on) + stage(csr, Trigger::Off, w.off) + stage(
        csr,
        Trigger::Toggle,
        w.toggle,
    )
}

/// The mask that `effects` gather for `action` on word `word` of one
/// section: set where some effect disables or enables, and where an
/// odd number of effects toggle.
pub open spec fn tally(effects: Seq<Effect>, internal: bool, action: Action, word: int) -> u32
    decreases effects.len(),
{
    if effects.len() == 0 {
        0
    } else {
        let before = tally(effects.drop_last(), internal, action, word);
        let e = effects.last();
        if e.to_is_internal == internal && e.action == action && e.to_word == word {
            if action == Action::Toggle {
                before ^ e.mask
            } else {
                before | e.mask
            }
        } else {
            before
        }
    }
}

/// A word after commit: toggled where only toggles ask, set where an
/// enable asks, cleared where a disable asks.
pub open spec fn commit_word(old: u32, dis: u32, en: u32, tog: u32) -> u32 {
    ((old ^ (tog & !en)) | en) & !dis
}

/// The words of one section after the effects have been committed.
pub open spec fn commit(words: Seq<u32>, effects: Seq<Effect>, internal: bool) -> Seq<u32> {
    Seq::new(
        words.len(),
        |w: int|
            commit_word(
                words[w],
                tally(effects, internal, Action::Disable, w),
                tally(effects, internal, Action::Enable, w),
                tally(effects, internal, Action::Toggle, w),
            ),
    )
}

/// The sources of the first `k` internal bits that are set now and
/// were clear before, in index order.
pub open spec fn risen(before: Seq<u32>, now: Seq<u32>, ni: u32, k: int) -> Seq<u32>
    decreases k,
{
    if k <= 0 {
        Seq::empty()
    } else {
        let front = risen(before, now, ni, k - 1);
        if !bit_of_words(before, k - 1) && bit_of_words(now, k - 1) {
            front.push((ni + k - 1) as u32)
        } else {
            front
        }
    }
}

/// The sources of the first `k` internal bits that are clear now and
/// were set before, in index order.
pub open spec fn fallen(before: Seq<u32>, now: Seq<u32>, ni: u32, k: int) -> Seq<u32>
    decreases k,
{
    if k <= 0 {
        Seq::empty()
    } else {
        let front = fallen(before, now, ni, k - 1);
        if bit_of_words(before, k - 1) && !bit_of_words(now, k - 1) {
            front.push((ni + k - 1) as u32)
        } else {
            front
        }
    }
}

/// The sources of the first `k` internal bits that changed, in index
/// order.
pub open spec fn changed(before: Seq<u32>, now: Seq<u32>, ni: u32, k: int) -> Seq<u32>
    decreases k,
{
    if k <= 0 {
        Seq::empty()
    } else {
        let front = changed(before, now, ni, k - 1);
        if bit_of_words(before, k - 1) != bit_of_words(now, k - 1) {
            front.push((ni + k - 1) as u32)
        } else {
            front
        }
    }
}

/// The state after one round. Outputs never queue events.
#[verifier::opaque]
pub open spec fn next_wave(csr: &CSR, ni: u32, nn: u32, w: Wave) -> Wave {
    let effects = staged(csr, w);
    let internal = commit(w.internal, effects, true);
    Wave {
        internal,
        output: commit(w.output, effects, false),
        on: risen(w.internal, internal, ni, nn as int),
        off: fallen(w.internal, internal, ni, nn as int),
        toggle: changed(w.internal, internal, ni, nn as int),
    }
}

/// The actions that `effects` ask of one bit, in order.
pub open spec fn asked(effects: Seq<Effect>, internal: bool, bit: int) -> Seq<Action>
    decreases effects.len(),
{
    if effects.len() == 0 {
        Seq::empty()
    } else {
        let before = asked(effects.drop_last(), internal, bit);
        let e = effects.last();
        if e.to_is_internal == internal && e.to_bit == bit {
            before.push(e.action)
        } else {
            before
        }
    }
}

/// A bit after the actions asked of it have been resolved and applied.
pub open spec fn settle(bit: bool, actions: Seq<Action>) -> bool {
    match resolve(actions) {
        Some(a) => act(a, bit),
        None => bit,
    }
}


/// The wave `k` rounds after `w`.
pub open spec fn wave_after(csr: &CSR, ni: u32, nn: u32, w: Wave, k: nat) -> Wave
    decreases k,
{
    if k == 0 {
        w
    } else {
        next_wave(csr, ni, nn, wave_after(csr, ni, nn, w, (k - 1) as nat))
    }
}

/// The effects of the `k` rounds that follow `w`, in the order in which
/// they are staged.
pub open spec fn window_effects(csr: &CSR, ni: u32, nn: u32, w: Wave, k: nat) -> Seq<Effect>
    decreases k,
{
    if k == 0 {
        Seq::empty()
    } else {
        window_effects(csr, ni, nn, w, (k - 1) as nat) + staged(
            csr,
            wave_after(csr, ni, nn, w, (k - 1) as nat),
        )
    }
}

/// The internal words of `w` clamped over a cycle of `period` rounds:
/// every bit takes what the commutative precedence makes of all the
/// actions asked of it in the `period` rounds that follow `w`, the
/// toggles counting by the parity of their number.
pub open spec fn clamped(csr: &CSR, ni: u32, nn: u32, w: Wave, period: u32) -> Seq<u32> {
    commit(w.internal, window_effects(csr, ni, nn, w, period as nat), true)
}

/// A bit after the actions have been applied to it one after the
/// other, as the events of a queue act on it in turn.
pub open spec fn act_in_turn(bit: bool, actions: Seq<Action>) -> bool
    decreases actions.len(),
{
    if actions.len() == 0 {
        bit
    } else {
        act(actions.last(), act_in_turn(bit, actions.drop_last()))
    }
}

/// Where the actions asked of a bit in one round are all the same, and
/// so where there is only one, resolving them by precedence does to the
/// bit what applying them one after the other does; and the toggles
/// among them are all of them or none. With different actions the two
/// can differ: Enable and then Toggle leaves the bit clear in turn, and
/// set by precedence.
pub proof fn lemma_settle_uniform(bit: bool, actions: Seq<Action>)
    requires
        forall|i: int, j: int|
            0 <= i < actions.len() && 0 <= j < actions.len() ==> actions[i] == actions[j],
    ensures
        settle(bit, actions) == act_in_turn(bit, actions),
        actions.len() > 0 && actions[0] == Action::Toggle ==> toggle_count(actions)
            == actions.len(),
        actions.len() > 0 && actions[0] != Action::Toggle ==> toggle_count(actions) == 0,
    decreases actions.len(),
{
    if actions.len() > 0 {
        let front = actions.drop_last();
        let a = actions.last();
        assert(actions[0] == a);
        assert forall|i: int, j: int|
            0 <= i < front.len() && 0 <= j < front.len() implies front[i] == front[j] by {
            assert(front[i] == actions[i] && front[j] == actions[j]);
        }
        lemma_settle_uniform(bit, front);
        lemma_actions_push(front, a);
        assert(front.push(a) =~= actions);
        assert(actions.contains(a));
        if front.len() > 0 {
            assert(front[0] == actions[0]);
            assert(front.contains(a)) by {
                assert(front[0] == a);
            }
        } else {
            assert(!front.contains(Action::Disable));
            assert(!front.contains(Action::Enable));
        }
        match a {
            Action::Toggle => {
                assert(!actions.contains(Action::Disable)) by {
                    if actions.contains(Action::Disable) {
                        let w = choose|w: int| 0 <= w < actions.len() && actions[w] == Action::Disable;
                        assert(actions[w] == actions[0]);
                    }
                }
                assert(!actions.contains(Action::Enable)) by {
                    if actions.contains(Action::Enable) {
                        let w = choose|w: int| 0 <= w < actions.len() && actions[w] == Action::Enable;
                        assert(actions[w] == actions[0]);
                    }
                }
                assert(!front.contains(Action::Disable));
                assert(!front.contains(Action::Enable));
            },
            Action::Enable => {
                assert(!actions.contains(Action::Disable)) by {
                    if actions.contains(Action::Disable) {
                        let w = choose|w: int| 0 <= w < actions.len() && actions[w] == Action::Disable;
                        assert(actions[w] == actions[0]);
                    }
                }
            },
            Action::Disable => {},
        }
    }
}

/// How a committed word reads, bit by bit.
pub proof fn lemma_commit_word_bit(old: u32, dis: u32, en: u32, tog: u32, j: u32)
    requires
        j < 32,
    ensures
        word_bit(commit_word(old, dis, en, tog), j) == (if word_bit(dis, j) {
            false
        } else if word_bit(en, j) {
            true
        } else if word_bit(tog, j) {
            !word_bit(old, j)
        } else {
            word_bit(old, j)
        }),
{
    assert((((((old ^ (tog & !en)) | en) & !dis) & (1u32 << j)) != 0) == (if dis & (1u32 << j) != 0 {
        false
    } else if en & (1u32 << j) != 0 {
        true
    } else if tog & (1u32 << j) != 0 {
        !(old & (1u32 << j) != 0)
    } else {
        old & (1u32 << j) != 0
    })) by (bit_vector)
        requires
            j < 32,
    ;
}

/// What one more action does to membership and to the toggle count.
pub proof fn lemma_actions_push(s: Seq<Action>, a: Action)
    ensures
        forall|x: Action| s.push(a).contains(x) == (s.contains(x) || x == a),
        toggle_count(s.push(a)) == toggle_count(s) + (if a == Action::Toggle { 1nat } else { 0nat }),
{
    let t = s.push(a);
    assert(t.drop_last() =~= s);
    assert forall|x: Action| t.contains(x) == (s.contains(x) || x == a) by {
        if s.contains(x) {
            let w = choose|w: int| 0 <= w < s.len() && s[w] == x;
            assert(t[w] == x);
        }
        if x == a {
            assert(t[s.len() as int] == x);
        }
    }
}

/// The masks record, bit by bit, what the commutative precedence looks
/// at: whether a disable or an enable is asked of the bit, and whether
/// the toggles asked of it are odd in number.
pub proof fn lemma_tally_bits(effects: Seq<Effect>, internal: bool, b: int)
    requires
        0 <= b,
        forall|k: int| 0 <= k < effects.len() ==> effect_aligned(#[trigger] effects[k]),
    ensures
        word_bit(tally(effects, internal, Action::Disable, b / 32), (b % 32) as u32) == asked(
            effects,
            internal,
            b,
        ).contains(Action::Disable),
        word_bit(tally(effects, internal, Action::Enable, b / 32), (b % 32) as u32) == asked(
            effects,
            internal,
            b,
        ).contains(Action::Enable),
        word_bit(tally(effects, internal, Action::Toggle, b / 32), (b % 32) as u32) == (
        toggle_count(asked(effects, internal, b)) % 2 == 1),
    decreases effects.len(),
{
    let j = (b % 32) as u32;
    if effects.len() == 0 {
        lemma_word_bit_ops(0, 0, j);
        assert(!Seq::<Action>::empty().contains(Action::Disable));
        assert(!Seq::<Action>::empty().contains(Action::Enable));
    } else {
        let front = effects.drop_last();
        let e = effects.last();
        assert forall|k: int| 0 <= k < front.len() implies effect_aligned(#[trigger] front[k]) by {
            assert(front[k] == effects[k]);
        }
        lemma_tally_bits(front, internal, b);
        assert(effect_aligned(effects[effects.len() - 1]));
        lemma_actions_push(asked(front, internal, b), e.action);
        if e.to_is_internal == internal && e.to_word == b / 32 {
            let k = e.to_bit % 32;
            lemma_word_bit_ops(tally(front, internal, Action::Disable, b / 32), k, j);
            lemma_word_bit_ops(tally(front, internal, Action::Enable, b / 32), k, j);
            lemma_word_bit_ops(tally(front, internal, Action::Toggle, b / 32), k, j);
        }
    }
}

/// Committing is the commutative precedence, bit by bit: every bit
/// ends as the resolution of the actions asked of it says.
pub proof fn lemma_commit_bit(words: Seq<u32>, effects: Seq<Effect>, internal: bool, b: int)
    requires
        0 <= b < 32 * words.len(),
        forall|k: int| 0 <= k < effects.len() ==> effect_aligned(#[trigger] effects[k]),
    ensures
        bit_of_words(commit(words, effects, internal), b) == settle(
            bit_of_words(words, b),
            asked(effects, internal, b),
        ),
{
    lemma_tally_bits(effects, internal, b);
    lemma_commit_word_bit(
        words[b / 32],
        tally(effects, internal, Action::Disable, b / 32),
        tally(effects, internal, Action::Enable, b / 32),
        tally(effects, internal, Action::Toggle, b / 32),
        (b % 32) as u32,
    );
}


/// The three masks of one section while a round is being expanded.
struct Tally {
    dis: Vec<u32>,
    en: Vec<u32>,
    tog: Vec<u32>,
}

impl Tally {
    /// The masks are those that `effects` gather for the section.
    spec fn holds(&self, effects: Seq<Effect>, internal: bool, len: int) -> bool {
        &&& self.dis@.len() == len
        &&& self.en@.len() == len
        &&& self.tog@.len() == len
        &&& forall|w: int|
            0 <= w < len ==> (#[trigger] self.dis@[w]) == tally(
                effects,
                internal,
                Action::Disable,
                w,
            )
        &&& forall|w: int|
            0 <= w < len ==> (#[trigger] self.en@[w]) == tally(effects, internal, Action::Enable, w)
        &&& forall|w: int|
            0 <= w < len ==> (#[trigger] self.tog@[w]) == tally(
                effects,
                internal,
                Action::Toggle,
                w,
            )
    }

    /// Empty masks for `len` words.
    fn new(len: usize) -> (t: Tally)
        ensures
            t.holds(Seq::empty(), true, len as int),
            t.holds(Seq::empty(), false, len as int),
    {
        Tally { dis: zero_words(len), en: zero_words(len), tog: zero_words(len) }
    }

    /// Takes one effect of this section into the masks.
    fn note(&mut self, e: Effect, Ghost(effects): Ghost<Seq<Effect>>, Ghost(len): Ghost<int>)
        requires
            old(self).holds(effects, e.to_is_internal, len),
            e.to_word < len,
        ensures
            final(self).holds(effects.push(e), e.to_is_internal, len),
    {
        let w: usize = e.to_word as usize;
        proof {
            assert(effects.push(e).drop_last() =~= effects);
        }
        match e.action {
            Action::Disable => {
                let x: u32 = self.dis[w];
                self.dis.set(w, x | e.mask);
            },
            Action::Enable => {
                let x: u32 = self.en[w];
                self.en.set(w, x | e.mask);
            },
            Action::Toggle => {
                let x: u32 = self.tog[w];
                self.tog.set(w, x ^ e.mask);
            },
        }
    }
}

/// An effect of the other section leaves the masks of this one as they
/// are.
proof fn lemma_tally_other(effects: Seq<Effect>, e: Effect, internal: bool, action: Action, w: int)
    requires
        e.to_is_internal != internal,
    ensures
        tally(effects.push(e), internal, action, w) == tally(effects, internal, action, w),
{
    assert(effects.push(e).drop_last() =~= effects);
}

/// A vector of `n` zero words.
fn zero_words(n: usize) -> (v: Vec<u32>)
    ensures
        v@.len() == n,
        forall|i: int| 0 <= i < n ==> v@[i] == 0,
{
    let mut v: Vec<u32> = Vec::new();
    let mut i: usize = 0;
    while i < n
        invariant
            i <= n,
            v@.len() == i,
            forall|j: int| 0 <= j < i ==> v@[j] == 0,
        decreases n - i,
    {
        v.push(0u32);
        i = i + 1;
    }
    v
}

/// A copy of `v`.
pub fn copy_words(v: &Vec<u32>) -> (r: Vec<u32>)
    ensures
        r@ == v@,
{
    let n: usize = v.len();
    let mut r: Vec<u32> = Vec::new();
    let mut i: usize = 0;
    while i < n
        invariant
            i <= n,
            n == v@.len(),
            r@ == v@.take(i as int),
        decreases n - i,
    {
        r.push(v[i]);
        i = i + 1;
        assert(r@ =~= v@.take(i as int));
    }
    assert(v@.take(n as int) =~= v@);
    r
}

/// A count that stops at the largest `u64`.
pub open spec fn capped(n: int) -> u64 {
    if n > u64::MAX {
        u64::MAX
    } else {
        n as u64
    }
}

/// Expands one queue: every effect of every bucket it names goes into
/// the masks of its section and is counted.
fn stage_queue(
    csr: &CSR,
    t: Trigger,
    queue: &Vec<u32>,
    ti: &mut Tally,
    to: &mut Tally,
    count: &mut u64,
    Ghost(done): Ghost<Seq<Effect>>,
    Ghost(no): Ghost<u32>,
    Ghost(nn): Ghost<u32>,
)
    requires
        csr.serves(csr.offs_on@.len() - 1, no, nn),
        forall|q: int| 0 <= q < queue@.len() ==> (#[trigger] queue@[q]) < csr.offs_on@.len() - 1,
        old(ti).holds(done, true, words_for(nn as int)),
        old(to).holds(done, false, words_for(no as int)),
        *old(count) == capped(done.len() as int),
    ensures
        final(ti).holds(done + stage(csr, t, queue@), true, words_for(nn as int)),
        final(to).holds(done + stage(csr, t, queue@), false, words_for(no as int)),
        *final(count) == capped((done + stage(csr, t, queue@)).len() as int),
{
    let offs: &Vec<u32> = match t {
        Trigger::On => &csr.offs_on,
        Trigger::Off => &csr.offs_off,
        Trigger::Toggle => &csr.offs_tog,
    };
    assert(offs@ == csr.offsets(t));
    let n: usize = queue.len();
    let mut q: usize = 0;
    let ghost mut seen: Seq<Effect> = done;
    proof {
        assert(queue@.take(0) =~= Seq::<u32>::empty());
        assert(done + Seq::<Effect>::empty() =~= done);
    }
    while q < n
        invariant
            q <= n,
            n == queue@.len(),
            offs@ == csr.offsets(t),
            csr.serves(csr.offs_on@.len() - 1, no, nn),
            forall|q: int| 0 <= q < queue@.len() ==> (#[trigger] queue@[q]) < csr.offs_on@.len() - 1,
            seen == done + stage(csr, t, queue@.take(q as int)),
            ti.holds(seen, true, words_for(nn as int)),
            to.holds(seen, false, words_for(no as int)),
            *count == capped(seen.len() as int),
        decreases n - q,
    {
        let s: usize = queue[q] as usize;
        let slots: usize = offs.len();
        assert(queue@[q as int] < csr.offs_on@.len() - 1);
        assert(offs@[s as int] <= offs@[s + 1]);
        assert(offs@[s + 1] <= offs@[offs@.len() - 1]);
        let start: usize = offs[s] as usize;
        let end: usize = offs[s + 1] as usize;
        let ghost base = seen;
        let ghost bucket = csr.bucket(t, s as int);
        let mut idx: usize = start;
        proof {
            assert(bucket.take(0) =~= Seq::<Effect>::empty());
            assert(base + Seq::<Effect>::empty() =~= base);
        }
        while idx < end
            invariant
                start <= idx <= end,
                end <= csr.effects@.len(),
                bucket == csr.effects@.subrange(start as int, end as int),
                csr.serves(csr.offs_on@.len() - 1, no, nn),
                seen == base + bucket.take(idx - start),
                ti.holds(seen, true, words_for(nn as int)),
                to.holds(seen, false, words_for(no as int)),
                *count == capped(seen.len() as int),
            decreases end - idx,
        {
            let e: Effect = csr.effects[idx];
            proof {
                assert(bucket[idx - start] == e);
                assert(bucket.take(idx - start + 1) =~= bucket.take(idx - start).push(e));
                assert(base + bucket.take(idx - start).push(e) =~= seen.push(e));
                assert(effect_aligned(csr.effects@[idx as int]));
            }
            if e.to_is_internal {
                ti.note(e, Ghost(seen), Ghost(words_for(nn as int)));
                proof {
                    assert forall|w: int| 0 <= w < words_for(no as int) implies tally(
                        seen.push(e),
                        false,
                        Action::Disable,
                        w,
                    ) == tally(seen, false, Action::Disable, w) && tally(
                        seen.push(e),
                        false,
                        Action::Enable,
                        w,
                    ) == tally(seen, false, Action::Enable, w) && tally(
                        seen.push(e),
                        false,
                        Action::Toggle,
                        w,
                    ) == tally(seen, false, Action::Toggle, w) by {
                        lemma_tally_other(seen, e, false, Action::Disable, w);
                        lemma_tally_other(seen, e, false, Action::Enable, w);
                        lemma_tally_other(seen, e, false, Action::Toggle, w);
                    }
                }
            } else {
                to.note(e, Ghost(seen), Ghost(words_for(no as int)));
                proof {
                    assert forall|w: int| 0 <= w < words_for(nn as int) implies tally(
                        seen.push(e),
                        true,
                        Action::Disable,
                        w,
                    ) == tally(seen, true, Action::Disable, w) && tally(
                        seen.push(e),
                        true,
                        Action::Enable,
                        w,
                    ) == tally(seen, true, Action::Enable, w) && tally(
                        seen.push(e),
                        true,
                        Action::Toggle,
                        w,
                    ) == tally(seen, true, Action::Toggle, w) by {
                        lemma_tally_other(seen, e, true, Action::Disable, w);
                        lemma_tally_other(seen, e, true, Action::Enable, w);
                        lemma_tally_other(seen, e, true, Action::Toggle, w);
                    }
                }
            }
            *count = count.saturating_add(1);
            proof {
                seen = seen.push(e);
            }
            idx = idx + 1;
        }
        proof {
            assert(bucket.take(end - start) =~= bucket);
            assert(queue@.take(q + 1).drop_last() =~= queue@.take(q as int));
            assert(done + (stage(csr, t, queue@.take(q as int)) + bucket) =~= base + bucket);
        }
        q = q + 1;
    }
    proof {
        assert(queue@.take(n as int) =~= queue@);
    }
}

/// Commits one section: every word takes what its masks ask.
fn commit_section(
    words: &mut Vec<u32>,
    t: &Tally,
    Ghost(effects): Ghost<Seq<Effect>>,
    Ghost(internal): Ghost<bool>,
)
    requires
        t.holds(effects, internal, old(words)@.len() as int),
    ensures
        final(words)@ == commit(old(words)@, effects, internal),
{
    let n: usize = words.len();
    let mut w: usize = 0;
    while w < n
        invariant
            w <= n,
            n == words@.len(),
            n == old(words)@.len(),
            t.holds(effects, internal, n as int),
            forall|i: int| 0 <= i < w ==> words@[i] == commit(old(words)@, effects, internal)[i],
            forall|i: int| w <= i < n ==> words@[i] == old(words)@[i],
        decreases n - w,
    {
        let old_word: u32 = words[w];
        let dis: u32 = t.dis[w];
        let en: u32 = t.en[w];
        let tog: u32 = t.tog[w];
        words.set(w, ((old_word ^ (tog & !en)) | en) & !dis);
        w = w + 1;
    }
    assert(words@ =~= commit(old(words)@, effects, internal));
}

/// The frontier that a round leaves behind: every internal bit that
/// changed queues the edge it showed and a Toggle.
pub fn find_frontier(before: &Vec<u32>, now: &Vec<u32>, ni: u32, nn: u32) -> (f: Frontier)
    requires
        before@.len() >= words_for(nn as int),
        now@.len() >= words_for(nn as int),
        ni + nn <= u32::MAX,
    ensures
        f.on@ == risen(before@, now@, ni, nn as int),
        f.off@ == fallen(before@, now@, ni, nn as int),
        f.toggle@ == changed(before@, now@, ni, nn as int),
        forall|i: int| 0 <= i < f.on@.len() ==> (#[trigger] f.on@[i]) < ni + nn,
        forall|i: int| 0 <= i < f.off@.len() ==> (#[trigger] f.off@[i]) < ni + nn,
        forall|i: int| 0 <= i < f.toggle@.len() ==> (#[trigger] f.toggle@[i]) < ni + nn,
{
    let mut on: Vec<u32> = Vec::new();
    let mut off: Vec<u32> = Vec::new();
    let mut toggle: Vec<u32> = Vec::new();
    let mut b: u32 = 0;
    while b < nn
        invariant
            b <= nn,
            before@.len() >= words_for(nn as int),
            now@.len() >= words_for(nn as int),
            ni + nn <= u32::MAX,
            on@ == risen(before@, now@, ni, b as int),
            off@ == fallen(before@, now@, ni, b as int),
            toggle@ == changed(before@, now@, ni, b as int),
            forall|i: int| 0 <= i < on@.len() ==> (#[trigger] on@[i]) < ni + nn,
            forall|i: int| 0 <= i < off@.len() ==> (#[trigger] off@[i]) < ni + nn,
            forall|i: int| 0 <= i < toggle@.len() ==> (#[trigger] toggle@[i]) < ni + nn,
        decreases nn - b,
    {
        let was: bool = word_bit_at(before.as_slice(), b);
        let is: bool = word_bit_at(now.as_slice(), b);
        if was != is {
            if is {
                on.push(ni + b);
            } else {
                off.push(ni + b);
            }
            toggle.push(ni + b);
        }
        b = b + 1;
    }
    Frontier { on, off, toggle }
}

/// The state that the buffers and the frontier stand for.
pub open spec fn wave_of(internal: Seq<u32>, output: Seq<u32>, f: Frontier) -> Wave {
    Wave { internal, output, on: f.on@, off: f.off@, toggle: f.toggle@ }
}

/// Runs one round on the buffers and the frontier, as [`next_wave`]
/// says, and returns the number of effects it expanded, which stops
/// counting at the largest `u64`.
pub fn run_round(
    csr: &CSR,
    ni: u32,
    no: u32,
    nn: u32,
    internal: &mut Vec<u32>,
    output: &mut Vec<u32>,
    frontier: &mut Frontier,
) -> (count: u64)
    requires
        ni + nn <= u32::MAX,
        csr.serves(ni + nn, no, nn),
        old(internal)@.len() == words_for(nn as int),
        old(output)@.len() == words_for(no as int),
        wave_of(old(internal)@, old(output)@, *old(frontier)).sources_below(ni + nn),
    ensures
        wave_of(final(internal)@, final(output)@, *final(frontier)) == next_wave(
            csr,
            ni,
            nn,
            wave_of(old(internal)@, old(output)@, *old(frontier)),
        ),
        count == capped(
            staged(csr, wave_of(old(internal)@, old(output)@, *old(frontier))).len() as int,
        ),
        final(internal)@.len() == words_for(nn as int),
        final(output)@.len() == words_for(no as int),
        wave_of(final(internal)@, final(output)@, *final(frontier)).sources_below(ni + nn),
{
    let ghost w0 = wave_of(internal@, output@, *frontier);
    proof {
        reveal(next_wave);
    }
    let mut ti = Tally::new(internal.len());
    let mut to = Tally::new(output.len());
    let mut count: u64 = 0;
    let ghost none = Seq::<Effect>::empty();
    proof {
        assert(w0.sources_below(ni + nn));
        assert forall|q: int| 0 <= q < frontier.on@.len() implies (#[trigger] frontier.on@[q])
            < csr.offs_on@.len() - 1 by {
            assert(w0.on[q] < ni + nn);
        }
        assert forall|q: int| 0 <= q < frontier.off@.len() implies (#[trigger] frontier.off@[q])
            < csr.offs_on@.len() - 1 by {
            assert(w0.off[q] < ni + nn);
        }
        assert forall|q: int| 0 <= q < frontier.toggle@.len() implies (
        #[trigger] frontier.toggle@[q]) < csr.offs_on@.len() - 1 by {
            assert(w0.toggle[q] < ni + nn);
        }
    }
    stage_queue(csr, Trigger::On, &frontier.on, &mut ti, &mut to, &mut count, Ghost(none), Ghost(no), Ghost(nn));
    let ghost s1 = none + stage(csr, Trigger::On, w0.on);
    stage_queue(csr, Trigger::Off, &frontier.off, &mut ti, &mut to, &mut count, Ghost(s1), Ghost(no), Ghost(nn));
    let ghost s2 = s1 + stage(csr, Trigger::Off, w0.off);
    stage_queue(
        csr,
        Trigger::Toggle,
        &frontier.toggle,
        &mut ti,
        &mut to,
        &mut count,
        Ghost(s2),
        Ghost(no),
        Ghost(nn),
    );
    let ghost s3 = s2 + stage(csr, Trigger::Toggle, w0.toggle);
    proof {
        assert(s3 =~= staged(csr, w0));
    }
    let before: Vec<u32> = copy_words(internal);
    commit_section(internal, &ti, Ghost(s3), Ghost(true));
    commit_section(output, &to, Ghost(s3), Ghost(false));
    *frontier = find_frontier(&before, internal, ni, nn);
    count
}

/// Clamps the internal words over a cycle of `period` rounds, as
/// [`clamped`] says. The rounds of the cycle are run on copies of the
/// buffers; the output words and the frontier stay as they are.
pub fn clamp_window(
    csr: &CSR,
    ni: u32,
    no: u32,
    nn: u32,
    internal: &mut Vec<u32>,
    output: &Vec<u32>,
    frontier: &Frontier,
    period: u32,
)
    requires
        ni + nn <= u32::MAX,
        csr.serves(ni + nn, no, nn),
        old(internal)@.len() == words_for(nn as int),
        output@.len() == words_for(no as int),
        wave_of(old(internal)@, output@, *frontier).sources_below(ni + nn),
    ensures
        final(internal)@ == clamped(
            csr,
            ni,
            nn,
            wave_of(old(internal)@, output@, *frontier),
            period,
        ),
{
    let ghost w0 = wave_of(internal@, output@, *frontier);
    let mut inner: Vec<u32> = copy_words(internal);
    let mut outer: Vec<u32> = copy_words(output);
    let mut ahead = Frontier {
        on: copy_words(&frontier.on),
        off: copy_words(&frontier.off),
        toggle: copy_words(&frontier.toggle),
    };
    let mut ti = Tally::new(internal.len());
    let mut to = Tally::new(output.len());
    let mut count: u64 = 0;
    let ghost mut window: Seq<Effect> = Seq::empty();
    let mut k: u32 = 0;
    assert(wave_of(inner@, outer@, ahead) == w0);
    while k < period
        invariant
            k <= period,
            ni + nn <= u32::MAX,
            csr.serves(ni + nn, no, nn),
            inner@.len() == words_for(nn as int),
            outer@.len() == words_for(no as int),
            wave_of(inner@, outer@, ahead) == wave_after(csr, ni, nn, w0, k as nat),
            wave_of(inner@, outer@, ahead).sources_below(ni + nn),
            window == window_effects(csr, ni, nn, w0, k as nat),
            ti.holds(window, true, words_for(nn as int)),
            to.holds(window, false, words_for(no as int)),
            count == capped(window.len() as int),
        decreases period - k,
    {
        let ghost w = wave_of(inner@, outer@, ahead);
        proof {
            assert forall|q: int| 0 <= q < ahead.on@.len() implies (#[trigger] ahead.on@[q])
                < csr.offs_on@.len() - 1 by {
                assert(w.on[q] < ni + nn);
            }
            assert forall|q: int| 0 <= q < ahead.off@.len() implies (#[trigger] ahead.off@[q])
                < csr.offs_on@.len() - 1 by {
                assert(w.off[q] < ni + nn);
            }
            assert forall|q: int| 0 <= q < ahead.toggle@.len() implies (
            #[trigger] ahead.toggle@[q]) < csr.offs_on@.len() - 1 by {
                assert(w.toggle[q] < ni + nn);
            }
        }
        stage_queue(csr, Trigger::On, &ahead.on, &mut ti, &mut to, &mut count, Ghost(window), Ghost(no), Ghost(nn));
        let ghost s1 = window + stage(csr, Trigger::On, w.on);
        stage_queue(csr, Trigger::Off, &ahead.off, &mut ti, &mut to, &mut count, Ghost(s1), Ghost(no), Ghost(nn));
        let ghost s2 = s1 + stage(csr, Trigger::Off, w.off);
        stage_queue(
            csr,
            Trigger::Toggle,
            &ahead.toggle,
            &mut ti,
            &mut to,
            &mut count,
            Ghost(s2),
            Ghost(no),
            Ghost(nn),
        );
        proof {
            let s3 = s2 + stage(csr, Trigger::Toggle, w.toggle);
            assert(s3 =~= window + staged(csr, w));
            window = s3;
        }
        let spent: u64 = run_round(csr, ni, no, nn, &mut inner, &mut outer, &mut ahead);
        k = k + 1;
    }
    commit_section(internal, &ti, Ghost(window), Ghost(true));
}

} // verus!
