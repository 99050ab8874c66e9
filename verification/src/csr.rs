//! Grouped adjacency: for every source bit and trigger class, the effects
//! to apply when that source shows that edge.
//!
//! The effects lie in one flat array, cut into three regions (On, Off,
//! Toggle). Inside a region the buckets follow the source numbering, and
//! inside a bucket the effects are ordered by `(to_word, order_tag)`, ties
//! keeping the order in which the wires were given.

use vstd::prelude::*;
use crate::chunk::{Action, ChunkView, Connection, MycosChunk, Section, Trigger};
use crate::layout::{bit_to_word, word_index, word_mask};

verus! {

/// One action on one target bit, ready to be committed.
#[derive(Debug, Clone, Copy, PartialEq, Eq, Structural)]
pub struct Effect {
    pub to_word: u32,
    pub mask: u32,
    pub action: Action,
    pub order_tag: u32,
    pub to_is_internal: bool,
    pub to_bit: u32,
}

impl Default for Effect {
    fn default() -> (r: Effect)
        ensures
            r == (Effect {
                to_word: 0,
                mask: 0,
                action: Action::Enable,
                order_tag: 0,
                to_is_internal: false,
                to_bit: 0,
            }),
    {
        Effect {
            to_word: 0,
            mask: 0,
            action: Action::Enable,
            order_tag: 0,
            to_is_internal: false,
            to_bit: 0,
        }
    }
}

/// The grouped adjacency itself. `offs_on`, `offs_off` and `offs_tog`
/// have one entry per source plus one; bucket `s` of a class is
/// `effects[offs[s] .. offs[s + 1]]`.
#[derive(Debug, Clone)]
pub struct CSR {
    pub offs_on: Vec<u32>,
    pub offs_off: Vec<u32>,
    pub offs_tog: Vec<u32>,
    pub effects: Vec<Effect>,
}

/// A source, the edge it must show, and the effect that then applies.
#[derive(Debug, Clone, Copy, PartialEq, Eq, Structural)]
pub struct Wire {
    pub source: u32,
    pub trigger: Trigger,
    pub effect: Effect,
}

/// The order inside a bucket: by target word, then by order tag.
pub open spec fn effect_le(a: Effect, b: Effect) -> bool {
    a.to_word < b.to_word || (a.to_word == b.to_word && a.order_tag <= b.order_tag)
}

/// `s` is in bucket order.
pub open spec fn effects_sorted(s: Seq<Effect>) -> bool {
    forall|i: int, j: int| 0 <= i < j < s.len() ==> effect_le(s[i], s[j])
}

/// The effect's word and mask are those of its target bit.
pub open spec fn effect_aligned(e: Effect) -> bool {
    e.to_word == word_index(e.to_bit) && e.mask == word_mask(e.to_bit)
}

/// `e` put into the sorted sequence `s`, behind every effect that does
/// not come after it.
pub open spec fn insert_effect(s: Seq<Effect>, e: Effect) -> Seq<Effect>
    decreases s.len(),
{
    if s.len() == 0 {
        seq![e]
    } else if effect_le(s.last(), e) {
        s.push(e)
    } else {
        insert_effect(s.drop_last(), e).push(s.last())
    }
}

/// `s` in bucket order, effects that compare equal keeping their
/// relative order.
pub open spec fn sort_effects(s: Seq<Effect>) -> Seq<Effect>
    decreases s.len(),
{
    if s.len() == 0 {
        Seq::empty()
    } else {
        insert_effect(sort_effects(s.drop_last()), s.last())
    }
}

/// Inserting adds one element and keeps the rest.
pub proof fn lemma_insert_effect(s: Seq<Effect>, e: Effect)
    ensures
        insert_effect(s, e).len() == s.len() + 1,
        insert_effect(s, e).to_multiset() == s.to_multiset().insert(e),
        effects_sorted(s) ==> effects_sorted(insert_effect(s, e)),
        forall|k: int|
            0 <= k < insert_effect(s, e).len() ==> #[trigger] insert_effect(s, e)[k] == e
                || s.contains(insert_effect(s, e)[k]),
    decreases s.len(),
{
    broadcast use vstd::seq_lib::group_to_multiset_ensures;

    let r = insert_effect(s, e);
    if s.len() == 0 {
        assert(s =~= Seq::<Effect>::empty());
        assert(r =~= Seq::<Effect>::empty().push(e));
    } else if effect_le(s.last(), e) {
        assert forall|k: int| 0 <= k < r.len() implies #[trigger] r[k] == e || s.contains(
            r[k],
        ) by {
            if k < s.len() {
                assert(s[k] == r[k]);
            }
        }
        if effects_sorted(s) {
            assert forall|i: int, j: int| 0 <= i < j < r.len() implies effect_le(r[i], r[j]) by {
                if j < s.len() {
                    assert(effect_le(s[i], s[j]));
                } else if i < s.len() - 1 {
                    assert(effect_le(s[i], s[s.len() - 1]));
                }
            }
        }
    } else {
        let front = s.drop_last();
        let inner = insert_effect(front, e);
        lemma_insert_effect(front, e);
        assert(s =~= front.push(s.last()));
        assert(r.to_multiset() =~= s.to_multiset().insert(e));
        assert forall|k: int| 0 <= k < r.len() implies #[trigger] r[k] == e || s.contains(
            r[k],
        ) by {
            if k < inner.len() {
                if inner[k] != e {
                    assert(front.contains(inner[k]));
                    let w = choose|w: int| 0 <= w < front.len() && front[w] == inner[k];
                    assert(s[w] == inner[k]);
                }
            } else {
                assert(r[k] == s[s.len() - 1]);
            }
        }
        if effects_sorted(s) {
            assert(effects_sorted(front)) by {
                assert forall|i: int, j: int| 0 <= i < j < front.len() implies effect_le(
                    front[i],
                    front[j],
                ) by {
                    assert(effect_le(s[i], s[j]));
                }
            }
            assert forall|i: int, j: int| 0 <= i < j < r.len() implies effect_le(r[i], r[j]) by {
                if j < inner.len() {
                    assert(effect_le(inner[i], inner[j]));
                } else {
                    let x = inner[i];
                    if x != e {
                        assert(front.contains(x));
                        let w = choose|w: int| 0 <= w < front.len() && front[w] == x;
                        assert(effect_le(s[w], s[s.len() - 1]));
                    }
                }
            }
        }
    }
}

/// What sorting keeps and what it brings about: the same effects, in
/// bucket order.
pub proof fn lemma_sort_effects(s: Seq<Effect>)
    ensures
        sort_effects(s).len() == s.len(),
        sort_effects(s).to_multiset() == s.to_multiset(),
        effects_sorted(sort_effects(s)),
        forall|k: int|
            0 <= k < s.len() ==> s.contains(#[trigger] sort_effects(s)[k]),
    decreases s.len(),
{
    broadcast use vstd::seq_lib::group_to_multiset_ensures;

    if s.len() == 0 {
        assert(s =~= Seq::<Effect>::empty());
    } else {
        let front = s.drop_last();
        let inner = sort_effects(front);
        let r = sort_effects(s);
        lemma_sort_effects(front);
        lemma_insert_effect(inner, s.last());
        assert(s =~= front.push(s.last()));
        assert(r.to_multiset() =~= s.to_multiset());
        assert forall|k: int| 0 <= k < s.len() implies s.contains(#[trigger] r[k]) by {
            if r[k] == s.last() {
                assert(s[s.len() - 1] == r[k]);
            } else {
                assert(inner.contains(r[k]));
                let w = choose|w: int| 0 <= w < inner.len() && inner[w] == r[k];
                assert(front.contains(inner[w]));
                let v = choose|v: int| 0 <= v < front.len() && front[v] == inner[w];
                assert(s[v] == r[k]);
            }
        }
    }
}


/// Computes [`effect_le`].
pub fn effect_precedes(a: &Effect, b: &Effect) -> (r: bool)
    ensures
        r == effect_le(*a, *b),
{
    a.to_word < b.to_word || (a.to_word == b.to_word && a.order_tag <= b.order_tag)
}

/// Sorts `effects[start..end]` into bucket order, in place and stably.
/// Nothing outside that range changes.
pub fn sort_range(effects: &mut Vec<Effect>, start: usize, end: usize)
    requires
        start <= end <= old(effects)@.len(),
    ensures
        final(effects)@.len() == old(effects)@.len(),
        final(effects)@.subrange(start as int, end as int) == sort_effects(
            old(effects)@.subrange(start as int, end as int),
        ),
        forall|k: int|
            0 <= k < start || end <= k < old(effects)@.len() ==> final(effects)@[k] == old(
                effects,
            )@[k],
{
    let mut i: usize = start;
    assert(effects@.subrange(start as int, start as int) =~= Seq::<Effect>::empty());
    while i < end
        invariant
            start <= i <= end <= effects@.len(),
            effects@.len() == old(effects)@.len(),
            effects@.subrange(start as int, i as int) == sort_effects(
                old(effects)@.subrange(start as int, i as int),
            ),
            forall|k: int|
                0 <= k < start || i <= k < effects@.len() ==> effects@[k] == old(effects)@[k],
        decreases end - i,
    {
        let e: Effect = effects[i];
        let ghost snapshot = effects@;
        let ghost sorted = effects@.subrange(start as int, i as int);
        let mut j: usize = i;
        proof {
            assert(sorted.take(i - start) =~= sorted);
            assert(sorted.skip(i - start) =~= Seq::<Effect>::empty());
            assert(insert_effect(sorted, e) + Seq::<Effect>::empty() =~= insert_effect(sorted, e));
        }
        while j > start && !effect_precedes(&effects[j - 1], &e)
            invariant
                start <= j <= i < end <= effects@.len(),
                effects@.len() == snapshot.len(),
                sorted == snapshot.subrange(start as int, i as int),
                forall|k: int| 0 <= k < start || i < k < effects@.len() ==> effects@[k] == snapshot[k],
                forall|k: int| start <= k < j ==> effects@[k] == snapshot[k],
                forall|k: int| j < k <= i ==> effects@[k] == snapshot[k - 1],
                insert_effect(sorted, e) == insert_effect(sorted.take(j - start), e) + sorted.skip(
                    j - start,
                ),
            decreases j,
        {
            let prev: Effect = effects[j - 1];
            proof {
                let head = sorted.take(j - start);
                assert(head.last() == prev);
                assert(head.drop_last() =~= sorted.take(j - 1 - start));
                assert(insert_effect(head, e) == insert_effect(head.drop_last(), e).push(prev));
                assert(insert_effect(head.drop_last(), e).push(prev) + sorted.skip(j - start)
                    =~= insert_effect(head.drop_last(), e) + sorted.skip(j - 1 - start));
            }
            effects.set(j, prev);
            j = j - 1;
        }
        effects.set(j, e);
        proof {
            let head = sorted.take(j - start);
            let whole = old(effects)@.subrange(start as int, i + 1);
            assert(insert_effect(head, e) == head.push(e)) by {
                if j > start {
                    assert(head.last() == snapshot[j - 1]);
                } else {
                    assert(head =~= Seq::<Effect>::empty());
                }
            }
            assert(effects@.subrange(start as int, i + 1) =~= head.push(e) + sorted.skip(
                j - start,
            ));
            assert(whole.drop_last() =~= old(effects)@.subrange(start as int, i as int));
            assert(whole.last() == e);
        }
        i = i + 1;
    }
}


/// The effects of the wires that leave `source` under `trigger`, in the
/// order of `wires`.
pub open spec fn bucket_of(wires: Seq<Wire>, source: int, trigger: Trigger) -> Seq<Effect>
    decreases wires.len(),
{
    if wires.len() == 0 {
        Seq::empty()
    } else {
        let front = bucket_of(wires.drop_last(), source, trigger);
        let w = wires.last();
        if w.source == source && w.trigger == trigger {
            front.push(w.effect)
        } else {
            front
        }
    }
}

/// How many wires of class `trigger` leave a source below `bound`.
pub open spec fn count_below(wires: Seq<Wire>, trigger: Trigger, bound: int) -> nat
    decreases wires.len(),
{
    if wires.len() == 0 {
        0
    } else {
        let w = wires.last();
        let one: nat = if w.trigger == trigger && w.source < bound { 1 } else { 0 };
        count_below(wires.drop_last(), trigger, bound) + one
    }
}

/// Every source of `wires` is below `src_total`.
pub open spec fn sources_below(wires: Seq<Wire>, src_total: int) -> bool {
    forall|k: int| 0 <= k < wires.len() ==> (#[trigger] wires[k]).source < src_total
}

/// `e` is the effect of one of the wires.
pub open spec fn carried_by(wires: Seq<Wire>, e: Effect) -> bool {
    exists|j: int| 0 <= j < wires.len() && (#[trigger] wires[j]).effect == e
}

/// Bucket `s` of the buckets that `offs` cuts out of `effects`.
pub open spec fn bucket_slice(effects: Seq<Effect>, offs: Seq<u32>, s: int) -> Seq<Effect> {
    effects.subrange(offs[s] as int, offs[s + 1] as int)
}

/// `offs` never decreases.
pub open spec fn offsets_monotone(offs: Seq<u32>) -> bool {
    forall|a: int, b: int| 0 <= a <= b < offs.len() ==> offs[a] <= offs[b]
}

/// What wire `k` adds to a bucket.
pub proof fn lemma_bucket_step(wires: Seq<Wire>, k: int, source: int, trigger: Trigger)
    requires
        0 <= k < wires.len(),
    ensures
        bucket_of(wires.take(k + 1), source, trigger) == if wires[k].source == source
            && wires[k].trigger == trigger {
            bucket_of(wires.take(k), source, trigger).push(wires[k].effect)
        } else {
            bucket_of(wires.take(k), source, trigger)
        },
{
    assert(wires.take(k + 1).drop_last() =~= wires.take(k));
}

/// A bucket of a prefix is no longer than the bucket of the whole.
pub proof fn lemma_bucket_prefix(wires: Seq<Wire>, k: int, source: int, trigger: Trigger)
    requires
        0 <= k <= wires.len(),
    ensures
        bucket_of(wires.take(k), source, trigger).len() <= bucket_of(wires, source, trigger).len(),
    decreases wires.len(),
{
    if k == wires.len() {
        assert(wires.take(k) =~= wires);
    } else {
        assert(wires.take(k) =~= wires.drop_last().take(k));
        lemma_bucket_prefix(wires.drop_last(), k, source, trigger);
    }
}

/// Every effect of a bucket is the effect of a wire of that source and
/// class.
pub proof fn lemma_bucket_members(wires: Seq<Wire>, source: int, trigger: Trigger, e: Effect)
    requires
        bucket_of(wires, source, trigger).contains(e),
    ensures
        exists|j: int|
            0 <= j < wires.len() && (#[trigger] wires[j]).effect == e && wires[j].source == source
                && wires[j].trigger == trigger,
    decreases wires.len(),
{
    if wires.len() > 0 {
        let front = bucket_of(wires.drop_last(), source, trigger);
        let w = wires.last();
        let b = bucket_of(wires, source, trigger);
        let i = choose|i: int| 0 <= i < b.len() && b[i] == e;
        if w.source == source && w.trigger == trigger && i == front.len() {
            assert(wires[wires.len() - 1].effect == e);
        } else {
            assert(front[i] == e);
            lemma_bucket_members(wires.drop_last(), source, trigger, e);
            let j = choose|j: int|
                0 <= j < wires.drop_last().len() && (#[trigger] wires.drop_last()[j]).effect == e
                    && wires.drop_last()[j].source == source && wires.drop_last()[j].trigger
                    == trigger;
            assert(wires[j] == wires.drop_last()[j]);
        }
    }
}

/// The count below `bound + 1` is the count below `bound` plus the
/// bucket of `bound`; nothing lies below zero; counts grow with the
/// bound.
pub proof fn lemma_count_below(wires: Seq<Wire>, trigger: Trigger, bound: int)
    requires
        0 <= bound,
    ensures
        count_below(wires, trigger, bound + 1) == count_below(wires, trigger, bound) + bucket_of(
            wires,
            bound,
            trigger,
        ).len(),
        count_below(wires, trigger, 0) == 0,
        count_below(wires, trigger, bound) <= wires.len(),
    decreases wires.len(),
{
    if wires.len() > 0 {
        lemma_count_below(wires.drop_last(), trigger, bound);
    }
}

/// Counts grow with the bound.
pub proof fn lemma_count_below_monotone(wires: Seq<Wire>, trigger: Trigger, a: int, b: int)
    requires
        a <= b,
    ensures
        count_below(wires, trigger, a) <= count_below(wires, trigger, b),
    decreases wires.len(),
{
    if wires.len() > 0 {
        lemma_count_below_monotone(wires.drop_last(), trigger, a, b);
    }
}

/// The three classes share the wires between them.
pub proof fn lemma_classes_partition(wires: Seq<Wire>, a: int, b: int, c: int, src_total: int)
    ensures
        count_below(wires, Trigger::On, a) + count_below(wires, Trigger::Off, b) + count_below(
            wires,
            Trigger::Toggle,
            c,
        ) <= wires.len(),
        sources_below(wires, src_total) ==> count_below(wires, Trigger::On, src_total)
            + count_below(wires, Trigger::Off, src_total) + count_below(
            wires,
            Trigger::Toggle,
            src_total,
        ) == wires.len(),
    decreases wires.len(),
{
    if wires.len() > 0 {
        lemma_classes_partition(wires.drop_last(), a, b, c, src_total);
        if sources_below(wires, src_total) {
            assert forall|k: int| 0 <= k < wires.drop_last().len() implies (
            #[trigger] wires.drop_last()[k]).source < src_total by {
                assert(wires.drop_last()[k] == wires[k]);
            }
            assert(wires[wires.len() - 1].source < src_total);
        }
    }
}

/// Finds the bucket that holds position `k`.
pub proof fn lemma_find_bucket(offs: Seq<u32>, k: int) -> (s: int)
    requires
        offs.len() >= 1,
        offs[0] <= k < offs.last(),
    ensures
        0 <= s < offs.len() - 1,
        offs[s] <= k < offs[s + 1],
    decreases offs.len(),
{
    if k >= offs[offs.len() - 2] {
        offs.len() - 2
    } else {
        lemma_find_bucket(offs.drop_last(), k)
    }
}

/// A vector of `n` zeros.
fn zero_offsets(n: usize) -> (v: Vec<u32>)
    ensures
        v@.len() == n,
        forall|i: int| 0 <= i < n ==> v@[i] == 0,
{
    let mut v: Vec<u32> = Vec::new();
    let mut i: usize = 0;
    while i < n
        invariant
            i <= n,
            v@.len() == i,
            forall|j: int| 0 <= j < i ==> v@[j] == 0,
        decreases n - i,
    {
        v.push(0u32);
        i = i + 1;
    }
    v
}

/// For one class, the number of wires below each source: entry `s` is
/// [`count_below`] at `s`.
fn count_class(wires: &Vec<Wire>, src_total: usize, t: Trigger) -> (offs: Vec<u32>)
    requires
        src_total < usize::MAX,
        wires@.len() <= u32::MAX,
        sources_below(wires@, src_total as int),
    ensures
        offs@.len() == src_total + 1,
        forall|s: int| 0 <= s <= src_total ==> offs@[s] == count_below(wires@, t, s),
{
    let n: usize = wires.len();
    let mut offs: Vec<u32> = zero_offsets(src_total + 1);
    let mut k: usize = 0;
    assert(wires@.take(0) =~= Seq::<Wire>::empty());
    while k < n
        invariant
            k <= n,
            n == wires@.len(),
            n <= u32::MAX,
            offs@.len() == src_total + 1,
            sources_below(wires@, src_total as int),
            offs@[0] == 0,
            forall|s: int|
                0 <= s < src_total ==> offs@[s + 1] == bucket_of(wires@.take(k as int), s, t).len(),
        decreases n - k,
    {
        let w: Wire = wires[k];
        let ghost before = offs@;
        if w.trigger == t {
            let from: usize = w.source as usize;
            proof {
                lemma_bucket_step(wires@, k as int, from as int, t);
                lemma_bucket_prefix(wires@, k + 1, from as int, t);
                lemma_count_below(wires@, t, from as int);
                lemma_count_below(wires@, t, from + 1);
                assert(before[from + 1] == bucket_of(wires@.take(k as int), from as int, t).len());
            }
            let c: u32 = offs[from + 1];
            offs.set(from + 1, c + 1);
        }
        proof {
            let k1 = k + 1;
            assert forall|s: int| 0 <= s < src_total implies offs@[s + 1] == bucket_of(
                wires@.take(k1),
                s,
                t,
            ).len() by {
                lemma_bucket_step(wires@, k as int, s, t);
                assert(before[s + 1] == bucket_of(wires@.take(k as int), s, t).len());
            }
        }
        k = k + 1;
    }
    assert(wires@.take(n as int) =~= wires@);
    let mut i: usize = 0;
    proof {
        lemma_count_below(wires@, t, 0);
    }
    while i < src_total
        invariant
            i <= src_total,
            offs@.len() == src_total + 1,
            wires@.len() <= u32::MAX,
            forall|s: int| 0 <= s <= i ==> offs@[s] == count_below(wires@, t, s),
            forall|s: int|
                i < s <= src_total ==> offs@[s] == bucket_of(wires@, s - 1, t).len(),
        decreases src_total - i,
    {
        proof {
            lemma_count_below(wires@, t, i as int);
            lemma_count_below(wires@, t, i + 1);
        }
        let a: u32 = offs[i];
        let b: u32 = offs[i + 1];
        offs.set(i + 1, a + b);
        i = i + 1;
    }
    offs
}

/// Adds `base` to every entry of `offs`.
fn shift_offsets(offs: &mut Vec<u32>, base: u32)
    requires
        forall|s: int| 0 <= s < old(offs)@.len() ==> old(offs)@[s] + base <= u32::MAX,
    ensures
        final(offs)@.len() == old(offs)@.len(),
        forall|s: int| 0 <= s < old(offs)@.len() ==> final(offs)@[s] == old(offs)@[s] + base,
{
    let n: usize = offs.len();
    let mut i: usize = 0;
    while i < n
        invariant
            i <= n,
            n == offs@.len(),
            n == old(offs)@.len(),
            forall|s: int| 0 <= s < n ==> old(offs)@[s] + base <= u32::MAX,
            forall|s: int| 0 <= s < i ==> offs@[s] == old(offs)@[s] + base,
            forall|s: int| i <= s < n ==> offs@[s] == old(offs)@[s],
        decreases n - i,
    {
        let v: u32 = offs[i];
        offs.set(i, v + base);
        i = i + 1;
    }
}

/// Writes the effects of class `t` into their buckets, each bucket in
/// wire order. Positions outside the class's region keep their value.
fn scatter_class(effects: &mut Vec<Effect>, wires: &Vec<Wire>, offs: &Vec<u32>, t: Trigger)
    requires
        offs@.len() >= 1,
        sources_below(wires@, offs@.len() - 1),
        offsets_monotone(offs@),
        forall|s: int|
            0 <= s < offs@.len() - 1 ==> offs@[s + 1] - offs@[s] == bucket_of(wires@, s, t).len(),
        offs@.last() <= old(effects)@.len(),
    ensures
        final(effects)@.len() == old(effects)@.len(),
        forall|s: int|
            0 <= s < offs@.len() - 1 ==> #[trigger] bucket_slice(final(effects)@, offs@, s)
                == bucket_of(wires@, s, t),
        forall|k: int|
            0 <= k < offs@[0] || offs@.last() <= k < old(effects)@.len() ==> final(effects)@[k]
                == old(effects)@[k],
{
    let m: usize = offs.len() - 1;
    let n: usize = wires.len();
    let mut next: Vec<u32> = Vec::new();
    let mut c: usize = 0;
    while c < m
        invariant
            c <= m,
            m == offs@.len() - 1,
            next@.len() == c,
            forall|s: int| 0 <= s < c ==> next@[s] == offs@[s],
        decreases m - c,
    {
        next.push(offs[c]);
        c = c + 1;
    }
    let mut k: usize = 0;
    proof {
        assert(wires@.take(0) =~= Seq::<Wire>::empty());
        assert forall|s: int| 0 <= s < m implies effects@.subrange(
            offs@[s] as int,
            next@[s] as int,
        ) == bucket_of(wires@.take(0), s, t) by {
            assert(effects@.subrange(offs@[s] as int, next@[s] as int) =~= Seq::<Effect>::empty());
        }
    }
    while k < n
        invariant
            k <= n,
            n == wires@.len(),
            m == offs@.len() - 1,
            next@.len() == m,
            effects@.len() == old(effects)@.len(),
            sources_below(wires@, m as int),
            offsets_monotone(offs@),
            forall|s: int|
                0 <= s < m ==> offs@[s + 1] - offs@[s] == bucket_of(wires@, s, t).len(),
            offs@.last() <= effects@.len(),
            forall|s: int|
                0 <= s < m ==> next@[s] == offs@[s] + bucket_of(wires@.take(k as int), s, t).len(),
            forall|s: int|
                0 <= s < m ==> effects@.subrange(offs@[s] as int, next@[s] as int) == bucket_of(
                    wires@.take(k as int),
                    s,
                    t,
                ),
            forall|j: int|
                0 <= j < offs@[0] || offs@.last() <= j < effects@.len() ==> effects@[j] == old(
                    effects,
                )@[j],
        decreases n - k,
    {
        let w: Wire = wires[k];
        let ghost before = effects@;
        let ghost before_next = next@;
        proof {
            let k1 = k + 1;
            assert forall|s: int| 0 <= s < m implies #[trigger] bucket_of(wires@.take(k1), s, t)
                == (if w.source == s && w.trigger == t {
                bucket_of(wires@.take(k as int), s, t).push(w.effect)
            } else {
                bucket_of(wires@.take(k as int), s, t)
            }) && bucket_of(wires@.take(k1), s, t).len() <= bucket_of(wires@, s, t).len() by {
                lemma_bucket_step(wires@, k as int, s, t);
                lemma_bucket_prefix(wires@, k + 1, s, t);
            }
        }
        if w.trigger == t {
            let from: usize = w.source as usize;
            let idx: usize = next[from] as usize;
            proof {
                lemma_bucket_step(wires@, k as int, from as int, t);
                lemma_bucket_prefix(wires@, k + 1, from as int, t);
                assert(next@[from as int] == offs@[from as int] + bucket_of(
                    wires@.take(k as int),
                    from as int,
                    t,
                ).len());
                assert(offs@[from + 1] - offs@[from as int] == bucket_of(
                    wires@,
                    from as int,
                    t,
                ).len());
            }
            assert(idx < offs@[from + 1]);
            assert(offs@[from + 1] <= offs@[m as int]);
            effects.set(idx, w.effect);
            next.set(from, (idx + 1) as u32);
            proof {
                let k1 = k + 1;
                assert forall|s: int| 0 <= s < m implies effects@.subrange(
                    offs@[s] as int,
                    next@[s] as int,
                ) == bucket_of(wires@.take(k1), s, t) by {
                    lemma_bucket_step(wires@, k as int, s, t);
                    lemma_bucket_prefix(wires@, k as int, s, t);
                    assert(before_next[s] == offs@[s] + bucket_of(
                        wires@.take(k as int),
                        s,
                        t,
                    ).len());
                    assert(offs@[s + 1] - offs@[s] == bucket_of(wires@, s, t).len());
                    let old_sub = before.subrange(offs@[s] as int, before_next[s] as int);
                    let new_sub = effects@.subrange(offs@[s] as int, next@[s] as int);
                    assert(old_sub == bucket_of(wires@.take(k as int), s, t));
                    if s == from {
                        assert(new_sub =~= old_sub.push(w.effect));
                    } else {
                        if s < from {
                            assert(offs@[s + 1] <= offs@[from as int]);
                        } else {
                            assert(offs@[from + 1] <= offs@[s]);
                        }
                        assert(new_sub =~= old_sub);
                    }
                }
                assert(offs@[0] <= offs@[from as int]);
            }
        }
        k = k + 1;
    }
    proof {
        assert(wires@.take(n as int) =~= wires@);
        assert forall|s: int| 0 <= s < m implies #[trigger] bucket_slice(effects@, offs@, s)
            == bucket_of(wires@, s, t) by {
            assert(next@[s] == offs@[s + 1]);
        }
    }
}

/// Sorts every bucket delimited by `offs`. Positions outside the
/// buckets keep their value.
fn sort_buckets(effects: &mut Vec<Effect>, offs: &Vec<u32>)
    requires
        offs@.len() >= 1,
        offsets_monotone(offs@),
        offs@.last() <= old(effects)@.len(),
    ensures
        final(effects)@.len() == old(effects)@.len(),
        forall|s: int|
            0 <= s < offs@.len() - 1 ==> #[trigger] bucket_slice(final(effects)@, offs@, s)
                == sort_effects(bucket_slice(old(effects)@, offs@, s)),
        forall|k: int|
            0 <= k < offs@[0] || offs@.last() <= k < old(effects)@.len() ==> final(effects)@[k]
                == old(effects)@[k],
{
    let m: usize = offs.len() - 1;
    let mut i: usize = 0;
    while i < m
        invariant
            i <= m,
            m == offs@.len() - 1,
            offsets_monotone(offs@),
            offs@.last() <= effects@.len(),
            effects@.len() == old(effects)@.len(),
            forall|s: int|
                0 <= s < i ==> #[trigger] bucket_slice(effects@, offs@, s) == sort_effects(
                    bucket_slice(old(effects)@, offs@, s),
                ),
            forall|k: int|
                0 <= k < offs@[0] || offs@[i as int] <= k < effects@.len() ==> effects@[k] == old(
                    effects,
                )@[k],
        decreases m - i,
    {
        let start: usize = offs[i] as usize;
        let end: usize = offs[i + 1] as usize;
        let ghost before = effects@;
        assert(offs@[i as int] <= offs@[i + 1]);
        assert(offs@[i + 1] <= offs@[m as int]);
        assert(offs@[0] <= offs@[i as int]);
        sort_range(effects, start, end);
        proof {
            assert(before.subrange(start as int, end as int) =~= old(effects)@.subrange(
                start as int,
                end as int,
            ));
            assert forall|s: int| 0 <= s < i + 1 implies #[trigger] bucket_slice(
                effects@,
                offs@,
                s,
            ) == sort_effects(bucket_slice(old(effects)@, offs@, s)) by {
                if s < i {
                    assert(offs@[s] <= offs@[s + 1]);
                    assert(offs@[s + 1] <= offs@[i as int]);
                    assert(bucket_slice(effects@, offs@, s) =~= bucket_slice(before, offs@, s));
                }
            }
        }
        i = i + 1;
    }
}


/// Slices that lie wholly outside a rewritten range are unchanged.
proof fn lemma_slices_kept(
    before: Seq<Effect>,
    after: Seq<Effect>,
    offs: Seq<u32>,
    lo: int,
    hi: int,
)
    requires
        before.len() == after.len(),
        offs.len() >= 1,
        offsets_monotone(offs),
        offs.last() <= before.len(),
        forall|k: int| 0 <= k < lo || hi <= k < before.len() ==> after[k] == before[k],
        offs.last() <= lo || hi <= offs[0],
    ensures
        forall|s: int|
            0 <= s < offs.len() - 1 ==> #[trigger] bucket_slice(after, offs, s) == bucket_slice(
                before,
                offs,
                s,
            ),
{
    assert forall|s: int| 0 <= s < offs.len() - 1 implies #[trigger] bucket_slice(after, offs, s)
        == bucket_slice(before, offs, s) by {
        assert(offs[0] <= offs[s]);
        assert(offs[s] <= offs[s + 1]);
        assert(offs[s + 1] <= offs[offs.len() - 1]);
        assert(bucket_slice(after, offs, s) =~= bucket_slice(before, offs, s));
    }
}

/// Fills the region of class `t`: every bucket gets the effects of its
/// wires, sorted. Positions outside the region keep their value.
fn fill_class(effects: &mut Vec<Effect>, wires: &Vec<Wire>, offs: &Vec<u32>, t: Trigger)
    requires
        offs@.len() >= 1,
        sources_below(wires@, offs@.len() - 1),
        offsets_monotone(offs@),
        forall|s: int|
            0 <= s < offs@.len() - 1 ==> offs@[s + 1] - offs@[s] == bucket_of(wires@, s, t).len(),
        offs@.last() <= old(effects)@.len(),
    ensures
        final(effects)@.len() == old(effects)@.len(),
        forall|s: int|
            0 <= s < offs@.len() - 1 ==> #[trigger] bucket_slice(final(effects)@, offs@, s)
                == sort_effects(bucket_of(wires@, s, t)),
        forall|k: int|
            0 <= k < offs@[0] || offs@.last() <= k < old(effects)@.len() ==> final(effects)@[k]
                == old(effects)@[k],
{
    scatter_class(effects, wires, offs, t);
    let ghost scattered = effects@;
    sort_buckets(effects, offs);
    proof {
        assert forall|s: int| 0 <= s < offs@.len() - 1 implies #[trigger] bucket_slice(
            effects@,
            offs@,
            s,
        ) == sort_effects(bucket_of(wires@, s, t)) by {
            assert(bucket_slice(scattered, offs@, s) == bucket_of(wires@, s, t));
        }
    }
}

impl CSR {
    /// The offset array of class `t`.
    pub open spec fn offsets(&self, t: Trigger) -> Seq<u32> {
        match t {
            Trigger::On => self.offs_on@,
            Trigger::Off => self.offs_off@,
            Trigger::Toggle => self.offs_tog@,
        }
    }

    /// The effects to apply when source `s` shows edge `t`.
    pub open spec fn bucket(&self, t: Trigger, s: int) -> Seq<Effect> {
        bucket_slice(self.effects@, self.offsets(t), s)
    }

    /// This adjacency groups `wires` over `src_total` sources: the three
    /// regions follow each other in the order On, Off, Toggle, every
    /// offset is the number of effects that lie before its bucket, and
    /// every bucket holds the effects of its wires in bucket order.
    pub open spec fn groups(&self, wires: Seq<Wire>, src_total: int) -> bool {
        let total_on = count_below(wires, Trigger::On, src_total);
        let total_off = count_below(wires, Trigger::Off, src_total);
        &&& self.offs_on@.len() == src_total + 1
        &&& self.offs_off@.len() == src_total + 1
        &&& self.offs_tog@.len() == src_total + 1
        &&& self.effects@.len() == wires.len()
        &&& forall|s: int|
            0 <= s <= src_total ==> (#[trigger] self.offs_on@[s]) == count_below(
                wires,
                Trigger::On,
                s,
            )
        &&& forall|s: int|
            0 <= s <= src_total ==> (#[trigger] self.offs_off@[s]) == total_on + count_below(
                wires,
                Trigger::Off,
                s,
            )
        &&& forall|s: int|
            0 <= s <= src_total ==> (#[trigger] self.offs_tog@[s]) == total_on + total_off
                + count_below(wires, Trigger::Toggle, s)
        &&& forall|t: Trigger, s: int|
            0 <= s < src_total ==> #[trigger] self.bucket(t, s) == sort_effects(
                bucket_of(wires, s, t),
            )
    }
}

/// The offsets of a grouped adjacency never decrease, and end inside
/// the effects.
pub proof fn lemma_grouped_offsets(csr: &CSR, wires: Seq<Wire>, src_total: int, t: Trigger)
    requires
        csr.groups(wires, src_total),
        0 <= src_total,
    ensures
        offsets_monotone(csr.offsets(t)),
        csr.offsets(t).last() <= csr.effects@.len(),
        forall|s: int|
            0 <= s < src_total ==> csr.offsets(t)[s + 1] - csr.offsets(t)[s] == bucket_of(
                wires,
                s,
                t,
            ).len(),
{
    let offs = csr.offsets(t);
    lemma_classes_partition(wires, src_total, src_total, src_total, src_total);
    assert forall|a: int, b: int| 0 <= a <= b < offs.len() implies offs[a] <= offs[b] by {
        lemma_count_below_monotone(wires, t, a, b);
        assert(csr.offs_on@[a] == csr.offs_on@[a]);
        assert(csr.offs_off@[a] == csr.offs_off@[a]);
        assert(csr.offs_tog@[a] == csr.offs_tog@[a]);
        assert(csr.offs_on@[b] == csr.offs_on@[b]);
        assert(csr.offs_off@[b] == csr.offs_off@[b]);
        assert(csr.offs_tog@[b] == csr.offs_tog@[b]);
    }
    assert forall|s: int| 0 <= s < src_total implies offs[s + 1] - offs[s] == bucket_of(
        wires,
        s,
        t,
    ).len() by {
        lemma_count_below(wires, t, s);
        assert(csr.offs_on@[s] == csr.offs_on@[s]);
        assert(csr.offs_off@[s] == csr.offs_off@[s]);
        assert(csr.offs_tog@[s] == csr.offs_tog@[s]);
        assert(csr.offs_on@[s + 1] == csr.offs_on@[s + 1]);
        assert(csr.offs_off@[s + 1] == csr.offs_off@[s + 1]);
        assert(csr.offs_tog@[s + 1] == csr.offs_tog@[s + 1]);
    }
    assert(csr.offs_on@[src_total] == csr.offs_on@[src_total]);
    assert(csr.offs_off@[src_total] == csr.offs_off@[src_total]);
    assert(csr.offs_tog@[src_total] == csr.offs_tog@[src_total]);
}

/// In a grouped adjacency the last Toggle offset is the number of
/// effects, every bucket is in bucket order, and every effect is that of
/// one of the wires.
pub proof fn lemma_grouped_effects(csr: &CSR, wires: Seq<Wire>, src_total: int)
    requires
        csr.groups(wires, src_total),
        sources_below(wires, src_total),
        0 <= src_total,
    ensures
        csr.offs_on@[0] == 0,
        csr.offs_off@[0] == csr.offs_on@[src_total],
        csr.offs_tog@[0] == csr.offs_off@[src_total],
        csr.offs_tog@[src_total] == csr.effects@.len(),
        forall|t: Trigger, s: int| 0 <= s < src_total ==> effects_sorted(#[trigger] csr.bucket(t, s)),
        forall|k: int| 0 <= k < csr.effects@.len() ==> carried_by(wires, #[trigger] csr.effects@[k]),
{
    lemma_classes_partition(wires, src_total, src_total, src_total, src_total);
    lemma_count_below(wires, Trigger::On, 0);
    lemma_count_below(wires, Trigger::Off, 0);
    lemma_count_below(wires, Trigger::Toggle, 0);
    assert(csr.offs_on@[0] == 0);
    assert(csr.offs_off@[0] == csr.offs_on@[src_total]);
    assert(csr.offs_tog@[0] == csr.offs_off@[src_total]);
    assert(csr.offs_tog@[src_total] == csr.effects@.len());
    assert forall|t: Trigger, s: int| 0 <= s < src_total implies effects_sorted(
        #[trigger] csr.bucket(t, s),
    ) by {
        lemma_sort_effects(bucket_of(wires, s, t));
    }
    assert forall|k: int| 0 <= k < csr.effects@.len() implies carried_by(
        wires,
        #[trigger] csr.effects@[k],
    ) by {
        let t = if k < csr.offs_off@[0] {
            Trigger::On
        } else if k < csr.offs_tog@[0] {
            Trigger::Off
        } else {
            Trigger::Toggle
        };
        let offs = csr.offsets(t);
        let s = lemma_find_bucket(offs, k);
        let b = bucket_of(wires, s, t);
        let e = csr.effects@[k];
        lemma_grouped_offsets(csr, wires, src_total, t);
        assert(offs[s] <= offs[s + 1]);
        assert(offs[s + 1] <= offs[src_total]);
        assert(csr.bucket(t, s) == sort_effects(b));
        assert(csr.bucket(t, s)[k - offs[s]] == e);
        lemma_sort_effects(b);
        assert(b.contains(sort_effects(b)[k - offs[s]]));
        lemma_bucket_members(wires, s, t, e);
    }
}

/// A vector of `n` default effects.
fn blank_effects(n: usize) -> (v: Vec<Effect>)
    ensures
        v@.len() == n,
{
    let mut v: Vec<Effect> = Vec::new();
    let mut i: usize = 0;
    while i < n
        invariant
            i <= n,
            v@.len() == i,
        decreases n - i,
    {
        v.push(Effect::default());
        i = i + 1;
    }
    v
}

/// Groups `wires` by source and trigger class. The result is fully
/// determined: see [`CSR::groups`].
pub fn group_wires(wires: &Vec<Wire>, src_total: usize) -> (csr: CSR)
    requires
        src_total < usize::MAX,
        wires@.len() <= u32::MAX,
        sources_below(wires@, src_total as int),
    ensures
        csr.groups(wires@, src_total as int),
{
    let n: usize = wires.len();
    let offs_on: Vec<u32> = count_class(wires, src_total, Trigger::On);
    let mut offs_off: Vec<u32> = count_class(wires, src_total, Trigger::Off);
    let mut offs_tog: Vec<u32> = count_class(wires, src_total, Trigger::Toggle);
    let base_off: u32 = offs_on[src_total];
    let ghost st = src_total as int;
    proof {
        lemma_classes_partition(wires@, st, st, st, st);
        assert forall|s: int| 0 <= s < offs_off@.len() implies offs_off@[s] + base_off
            <= u32::MAX by {
            lemma_classes_partition(wires@, st, s, 0, st);
        }
    }
    let base_tog: u32 = base_off + offs_off[src_total];
    proof {
        assert forall|s: int| 0 <= s < offs_tog@.len() implies offs_tog@[s] + base_tog
            <= u32::MAX by {
            lemma_classes_partition(wires@, st, st, s, st);
        }
    }
    shift_offsets(&mut offs_off, base_off);
    shift_offsets(&mut offs_tog, base_tog);
    let mut effects: Vec<Effect> = blank_effects(n);
    let ghost shape = CSR { offs_on, offs_off, offs_tog, effects };
    proof {
        assert forall|t: Trigger| offsets_monotone(#[trigger] shape.offsets(t)) && shape.offsets(
            t,
        ).last() <= n && (forall|s: int|
            0 <= s < st ==> shape.offsets(t)[s + 1] - shape.offsets(t)[s] == bucket_of(
                wires@,
                s,
                t,
            ).len()) by {
            let offs = shape.offsets(t);
            assert forall|a: int, b: int| 0 <= a <= b < offs.len() implies offs[a] <= offs[b] by {
                lemma_count_below_monotone(wires@, t, a, b);
            }
            assert forall|s: int| 0 <= s < st implies offs[s + 1] - offs[s] == bucket_of(
                wires@,
                s,
                t,
            ).len() by {
                lemma_count_below(wires@, t, s);
            }
        }
        assert(offsets_monotone(shape.offsets(Trigger::On)));
        assert(offsets_monotone(shape.offsets(Trigger::Off)));
        assert(offsets_monotone(shape.offsets(Trigger::Toggle)));
        lemma_count_below(wires@, Trigger::On, 0);
        lemma_count_below(wires@, Trigger::Off, 0);
        lemma_count_below(wires@, Trigger::Toggle, 0);
    }
    fill_class(&mut effects, wires, &offs_on, Trigger::On);
    let ghost e1 = effects@;
    fill_class(&mut effects, wires, &offs_off, Trigger::Off);
    let ghost e2 = effects@;
    proof {
        lemma_slices_kept(e1, e2, offs_on@, offs_off@[0] as int, offs_off@.last() as int);
    }
    fill_class(&mut effects, wires, &offs_tog, Trigger::Toggle);
    proof {
        lemma_slices_kept(e2, effects@, offs_on@, offs_tog@[0] as int, offs_tog@.last() as int);
        lemma_slices_kept(e2, effects@, offs_off@, offs_tog@[0] as int, offs_tog@.last() as int);
    }
    let csr = CSR { offs_on, offs_off, offs_tog, effects };
    proof {
        assert forall|t: Trigger, s: int| 0 <= s < st implies #[trigger] csr.bucket(t, s)
            == sort_effects(bucket_of(wires@, s, t)) by {
            match t {
                Trigger::On => {
                    assert(bucket_slice(e1, csr.offs_on@, s) == sort_effects(
                        bucket_of(wires@, s, t),
                    ));
                    assert(bucket_slice(e2, csr.offs_on@, s) == bucket_slice(
                        e1,
                        csr.offs_on@,
                        s,
                    ));
                    assert(bucket_slice(csr.effects@, csr.offs_on@, s) == bucket_slice(
                        e2,
                        csr.offs_on@,
                        s,
                    ));
                },
                Trigger::Off => {
                    assert(bucket_slice(e2, csr.offs_off@, s) == sort_effects(
                        bucket_of(wires@, s, t),
                    ));
                    assert(bucket_slice(csr.effects@, csr.offs_off@, s) == bucket_slice(
                        e2,
                        csr.offs_off@,
                        s,
                    ));
                },
                Trigger::Toggle => {
                    assert(bucket_slice(csr.effects@, csr.offs_tog@, s) == sort_effects(
                        bucket_of(wires@, s, t),
                    ));
                },
            }
        }
    }
    csr
}


/// The effect that connection `c` has on its target.
pub open spec fn effect_of(c: Connection) -> Effect {
    Effect {
        to_word: word_index(c.to_index),
        mask: word_mask(c.to_index),
        action: c.action,
        order_tag: c.order_tag,
        to_is_internal: c.to_section == Section::Internal,
        to_bit: c.to_index,
    }
}

/// Connection `c` as a wire. Sources are numbered with the inputs
/// first, then the internals.
pub open spec fn wire_of(c: Connection, ni: u32) -> Wire {
    Wire {
        source: if c.from_section == Section::Input {
            c.from_index
        } else {
            (ni + c.from_index) as u32
        },
        trigger: c.trigger,
        effect: effect_of(c),
    }
}

/// The wires of a chunk, in table order.
pub open spec fn chunk_wires(connections: Seq<Connection>, ni: u32) -> Seq<Wire> {
    Seq::new(connections.len(), |i: int| wire_of(connections[i], ni))
}

/// Builds the adjacency of a chunk whose connections are wired, as
/// those of every validated chunk are. Sources are the inputs (`0..ni`)
/// followed by the internals (`ni..ni + nn`).
pub fn build_csr(chunk: &MycosChunk) -> (csr: CSR)
    requires
        chunk@.wired(),
        chunk@.connections.len() <= u32::MAX,
        chunk.input_count + chunk.internal_count <= u32::MAX,
        chunk.input_count + chunk.internal_count < usize::MAX,
    ensures
        csr.groups(
            chunk_wires(chunk@.connections, chunk.input_count),
            chunk.input_count + chunk.internal_count,
        ),
        csr.offs_tog@[chunk.input_count + chunk.internal_count] == csr.effects@.len(),
        forall|t: Trigger, s: int|
            0 <= s < chunk.input_count + chunk.internal_count ==> effects_sorted(
                #[trigger] csr.bucket(t, s),
            ),
        forall|k: int| 0 <= k < csr.effects@.len() ==> effect_aligned(#[trigger] csr.effects@[k]),
        forall|k: int|
            0 <= k < csr.effects@.len() ==> (#[trigger] csr.effects@[k]).to_bit < (if csr.effects@[k].to_is_internal {
                chunk.internal_count
            } else {
                chunk.output_count
            }),
{
    let ni: u32 = chunk.input_count;
    let src_total: usize = (chunk.input_count + chunk.internal_count) as usize;
    let n: usize = chunk.connections.len();
    let ghost all = chunk_wires(chunk@.connections, ni);
    let mut wires: Vec<Wire> = Vec::new();
    let mut i: usize = 0;
    while i < n
        invariant
            i <= n,
            n == chunk@.connections.len(),
            ni == chunk.input_count,
            src_total == chunk.input_count + chunk.internal_count,
            src_total <= u32::MAX,
            chunk@.wired(),
            all == chunk_wires(chunk@.connections, ni),
            wires@.len() == i,
            forall|k: int| 0 <= k < i ==> wires@[k] == all[k],
            forall|k: int| 0 <= k < i ==> (#[trigger] wires@[k]).source < src_total,
        decreases n - i,
    {
        let conn: Connection = chunk.connections[i];
        assert(conn == chunk@.connections[i as int]);
        assert(chunk@.leaves_inside(i as int));
        let from: u32 = match conn.from_section {
            Section::Input => conn.from_index,
            _ => ni + conn.from_index,
        };
        let (to_word, mask) = bit_to_word(conn.to_index);
        let effect = Effect {
            to_word,
            mask,
            action: conn.action,
            order_tag: conn.order_tag,
            to_is_internal: matches!(conn.to_section, Section::Internal),
            to_bit: conn.to_index,
        };
        wires.push(Wire { source: from, trigger: conn.trigger, effect });
        i = i + 1;
    }
    assert(wires@ =~= all);
    let csr = group_wires(&wires, src_total);
    proof {
        lemma_grouped_effects(&csr, all, src_total as int);
        assert forall|k: int| 0 <= k < csr.effects@.len() implies effect_aligned(
            #[trigger] csr.effects@[k],
        ) && csr.effects@[k].to_bit < (if csr.effects@[k].to_is_internal {
            chunk.internal_count
        } else {
            chunk.output_count
        }) by {
            assert(carried_by(all, csr.effects@[k]));
            let j = choose|j: int| 0 <= j < all.len() && (#[trigger] all[j]).effect == csr.effects@[k];
            assert(chunk@.connections[j].to_section != Section::Input && chunk@.aims_inside(j));
        }
    }
    csr
}

/// The shape of the adjacency of a chunk. Whatever adjacency groups
/// the wires of a chunk whose connections are wired, as those of every
/// validated chunk are: it has one effect for every connection, and the
/// last Toggle offset is their number; every bucket is in bucket order;
/// and every effect has the word and the mask of its target bit, which
/// is a bit of its section.
pub proof fn lemma_adjacency_shape(csr: &CSR, c: ChunkView)
    requires
        c.wired(),
        csr.groups(chunk_wires(c.connections, c.input_count), c.input_count + c.internal_count),
    ensures
        csr.effects@.len() == c.connections.len(),
        csr.offs_tog@[c.input_count + c.internal_count] == csr.effects@.len(),
        forall|t: Trigger, s: int|
            0 <= s < c.input_count + c.internal_count ==> effects_sorted(#[trigger] csr.bucket(t, s)),
        forall|k: int|
            0 <= k < csr.effects@.len() ==> effect_aligned(#[trigger] csr.effects@[k])
                && csr.effects@[k].to_bit < (if csr.effects@[k].to_is_internal {
                c.internal_count
            } else {
                c.output_count
            }),
{
    let wires = chunk_wires(c.connections, c.input_count);
    let src_total = c.input_count + c.internal_count;
    assert(sources_below(wires, src_total)) by {
        assert forall|k: int| 0 <= k < wires.len() implies (#[trigger] wires[k]).source
            < src_total by {
            assert(c.leaves_inside(k));
            assert(wires[k] == wire_of(c.connections[k], c.input_count));
        }
    }
    lemma_grouped_effects(csr, wires, src_total);
    assert forall|k: int| 0 <= k < csr.effects@.len() implies effect_aligned(
        #[trigger] csr.effects@[k],
    ) && csr.effects@[k].to_bit < (if csr.effects@[k].to_is_internal {
        c.internal_count
    } else {
        c.output_count
    }) by {
        assert(carried_by(wires, csr.effects@[k]));
        let j = choose|j: int| 0 <= j < wires.len() && (#[trigger] wires[j]).effect == csr.effects@[k];
        assert(wires[j] == wire_of(c.connections[j], c.input_count));
        assert(c.connections[j].to_section != Section::Input && c.aims_inside(j));
    }
}

} // verus!
