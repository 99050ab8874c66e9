//! Oscillation handling: a ring-buffer cycle detector over hashes of the
//! internal state, and the three resolution policies.

use vstd::prelude::*;
use crate::chunk::Action;

verus! {

/// How an oscillation is resolved once it has been detected.
#[derive(Debug, Clone, Copy, PartialEq, Eq, Structural)]
pub enum Policy {
    /// Go back to the last state in which nothing was left to fire.
    FreezeLastStable,
    /// Give every bit what the commutative precedence makes of the
    /// actions asked of it over one period of the cycle.
    ClampCommutative,
    /// Complement the internal state once if the period is odd.
    ParityQuench,
}

/// What a tick did and where it left the chunk.
#[derive(Debug, Clone, PartialEq, Eq)]
pub struct ExecutionResult {
    pub rounds: u32,
    pub effects_applied: u64,
    pub oscillator: bool,
    pub period: u32,
    pub policy: Option<Policy>,
    pub internals: Vec<u32>,
    pub outputs: Vec<u32>,
}

/// `x` rotated left by `r` bits, for `0 < r < 32`.
pub open spec fn rotl32(x: u32, r: u32) -> u32 {
    (x << r) | (x >> ((32 - r) as u32))
}

/// One mixing step of a hash lane: `h` absorbs the word `k`.
pub open spec fn mix(h: u32, k: u32) -> u32 {
    let k1 = k.wrapping_mul(0xcc9e_2d51);
    let k2 = rotl32(k1, 15);
    let k3 = k2.wrapping_mul(0x1b87_3593);
    let h1 = h ^ k3;
    let h2 = rotl32(h1, 13);
    h2.wrapping_mul(5).wrapping_add(0xe654_6b64)
}

/// The final avalanche of a hash lane.
pub open spec fn fmix(h: u32) -> u32 {
    let h1 = h ^ (h >> 16);
    let h2 = h1.wrapping_mul(0x85eb_ca6b);
    let h3 = h2 ^ (h2 >> 13);
    let h4 = h3.wrapping_mul(0xc2b2_ae35);
    h4 ^ (h4 >> 16)
}

/// The four hash lanes after absorbing `words` in order. Lane `n`
/// absorbs each word rotated left by `8 * n` bits.
pub open spec fn hash_lanes(words: Seq<u32>) -> (u32, u32, u32, u32)
    decreases words.len(),
{
    if words.len() == 0 {
        (0, 0, 0, 0)
    } else {
        let l = hash_lanes(words.drop_last());
        let w = words.last();
        (mix(l.0, w), mix(l.1, rotl32(w, 8)), mix(l.2, rotl32(w, 16)), mix(l.3, rotl32(w, 24)))
    }
}

/// The 128-bit hash of a state: each lane is mixed with the state's
/// length in bytes (modulo 2^32) and finalised; lane 0 ends up in the
/// most significant 32 bits.
pub open spec fn state_hash(words: Seq<u32>) -> u128 {
    let l = hash_lanes(words);
    let len = ((words.len() * 4) % 0x1_0000_0000) as u32;
    ((fmix(l.0 ^ len) as u128) << 96) | ((fmix(l.1 ^ len) as u128) << 64) | ((fmix(l.2 ^ len) as u128)
        << 32) | (fmix(l.3 ^ len) as u128)
}

fn rotate_left(x: u32, r: u32) -> (out: u32)
    requires
        0 < r < 32,
    ensures
        out == rotl32(x, r),
{
    (x << r) | (x >> (32 - r))
}

fn mix_word(h: u32, k: u32) -> (out: u32)
    ensures
        out == mix(h, k),
{
    let k1: u32 = k.wrapping_mul(0xcc9e_2d51);
    let k2: u32 = rotate_left(k1, 15);
    let k3: u32 = k2.wrapping_mul(0x1b87_3593);
    let h1: u32 = h ^ k3;
    let h2: u32 = rotate_left(h1, 13);
    h2.wrapping_mul(5).wrapping_add(0xe654_6b64)
}

fn finish_lane(h: u32) -> (out: u32)
    ensures
        out == fmix(h),
{
    let h1: u32 = h ^ (h >> 16);
    let h2: u32 = h1.wrapping_mul(0x85eb_ca6b);
    let h3: u32 = h2 ^ (h2 >> 13);
    let h4: u32 = h3.wrapping_mul(0xc2b2_ae35);
    h4 ^ (h4 >> 16)
}

/// The length in bytes of `n` words, modulo 2^32.
fn length_word(n: usize) -> (len: u32)
    ensures
        len == (n * 4) % 0x1_0000_0000,
{
    let low: u64 = (n as u64) % 0x4000_0000;
    proof {
        let q = n as int / 0x4000_0000;
        assert(n == q * 0x4000_0000 + low);
        assert(n * 4 == q * 0x1_0000_0000 + 4 * low);
        vstd::arithmetic::div_mod::lemma_fundamental_div_mod_converse_mod(
            n * 4,
            0x1_0000_0000,
            q,
            4 * low,
        );
    }
    (low * 4) as u32
}

/// Hashes a state to 128 bits.
pub fn hash_state(words: &[u32]) -> (h: u128)
    ensures
        h == state_hash(words@),
{
    let n: usize = words.len();
    let mut h0: u32 = 0;
    let mut h1: u32 = 0;
    let mut h2: u32 = 0;
    let mut h3: u32 = 0;
    let mut i: usize = 0;
    assert(words@.take(0) =~= Seq::<u32>::empty());
    while i < n
        invariant
            i <= n,
            n == words@.len(),
            (h0, h1, h2, h3) == hash_lanes(words@.take(i as int)),
        decreases n - i,
    {
        let w: u32 = words[i];
        proof {
            assert(words@.take(i + 1).drop_last() =~= words@.take(i as int));
        }
        h0 = mix_word(h0, w);
        h1 = mix_word(h1, rotate_left(w, 8));
        h2 = mix_word(h2, rotate_left(w, 16));
        h3 = mix_word(h3, rotate_left(w, 24));
        i = i + 1;
    }
    assert(words@.take(n as int) =~= words@);
    let len: u32 = length_word(n);
    let a: u32 = finish_lane(h0 ^ len);
    let b: u32 = finish_lane(h1 ^ len);
    let c: u32 = finish_lane(h2 ^ len);
    let d: u32 = finish_lane(h3 ^ len);
    ((a as u128) << 96) | ((b as u128) << 64) | ((c as u128) << 32) | (d as u128)
}

/// A ring of the hashes of the most recent states, and the slot that
/// the next hash goes to.
pub struct CycleDetector {
    ring: Vec<u128>,
    pos: usize,
}

/// The content of a [`CycleDetector`].
pub struct RingView {
    pub ring: Seq<u128>,
    pub pos: nat,
}

/// The period that a match at slot `i` stands for, in a ring of
/// `window` slots whose next write goes to `pos`.
pub open spec fn period_at(window: int, pos: int, i: int) -> int {
    (window + pos - i) % window
}

impl RingView {
    /// The ring has a slot to write to, and its periods fit 32 bits.
    pub open spec fn well_formed(self) -> bool {
        0 < self.ring.len() <= u32::MAX && self.pos < self.ring.len()
    }

    /// Some slot holds `h`.
    pub open spec fn has(self, h: u128) -> bool {
        exists|i: int| 0 <= i < self.ring.len() && self.ring[i] == h
    }

    /// `p` is the period of some slot that holds `h`, and no slot that
    /// holds `h` has a shorter one.
    pub open spec fn least_period(self, h: u128, p: int) -> bool {
        &&& exists|i: int|
            0 <= i < self.ring.len() && self.ring[i] == h && p == period_at(
                self.ring.len() as int,
                self.pos as int,
                i,
            )
        &&& forall|j: int|
            0 <= j < self.ring.len() && self.ring[j] == h ==> p <= period_at(
                self.ring.len() as int,
                self.pos as int,
                j,
            )
    }

    /// What looking for `h` yields: nothing if no slot holds it, else
    /// the least period among the slots that do.
    #[verifier::opaque]
    pub open spec fn detect(self, h: u128) -> Option<u32> {
        if self.has(h) {
            Some((choose|p: int| self.least_period(h, p)) as u32)
        } else {
            None
        }
    }

    /// The ring after `h` has been written to the current slot.
    pub open spec fn write(self, h: u128) -> RingView {
        RingView {
            ring: self.ring.update(self.pos as int, h),
            pos: ((self.pos as int + 1) % (self.ring.len() as int)) as nat,
        }
    }
}

/// The period of a match at slot `i`.
fn slot_period(window: usize, pos: usize, i: usize) -> (p: u32)
    requires
        0 < window <= u32::MAX,
        pos < window,
        i < window,
    ensures
        p == period_at(window as int, pos as int, i as int),
{
    if i <= pos {
        proof {
            vstd::arithmetic::div_mod::lemma_mod_add_multiples_vanish(
                pos - i,
                window as int,
            );
            vstd::arithmetic::div_mod::lemma_small_mod((pos - i) as nat, window as nat);
        }
        (pos - i) as u32
    } else {
        proof {
            vstd::arithmetic::div_mod::lemma_small_mod(
                (window + pos - i) as nat,
                window as nat,
            );
        }
        (window - (i - pos)) as u32
    }
}

impl View for CycleDetector {
    type V = RingView;

    closed spec fn view(&self) -> RingView {
        RingView { ring: self.ring@, pos: self.pos as nat }
    }
}

impl CycleDetector {
    /// A detector that remembers the last `window` states. All slots
    /// start out as zero. It is fit for [`CycleDetector::observe`] when
    /// `window` is positive and fits 32 bits.
    pub fn new(window: usize) -> (d: CycleDetector)
        ensures
            d@.ring == Seq::new(window as nat, |i: int| 0u128),
            d@.pos == 0,
            d@.well_formed() <==> 0 < window <= u32::MAX,
    {
        let mut ring: Vec<u128> = Vec::new();
        let mut i: usize = 0;
        while i < window
            invariant
                i <= window,
                ring@.len() == i,
                forall|j: int| 0 <= j < i ==> ring@[j] == 0,
            decreases window - i,
        {
            ring.push(0u128);
            i = i + 1;
        }
        assert(ring@ =~= Seq::new(window as nat, |i: int| 0u128));
        CycleDetector { ring, pos: 0 }
    }

    /// Records the hash of `state` and reports a cycle: if a slot
    /// already holds that hash, the least period among the matching
    /// slots, otherwise `None`. Either way the hash goes to the current
    /// slot and the ring advances.
    pub fn observe(&mut self, state: &[u32]) -> (r: Option<u32>)
        requires
            old(self)@.well_formed(),
        ensures
            final(self)@ == old(self)@.write(state_hash(state@)),
            final(self)@.well_formed(),
            r is None <==> !old(self)@.has(state_hash(state@)),
            r matches Some(p) ==> old(self)@.least_period(state_hash(state@), p as int),
            r == old(self)@.detect(state_hash(state@)),
    {
        let h: u128 = hash_state(state);
        let window: usize = self.ring.len();
        let mut best: Option<u32> = None;
        let mut i: usize = 0;
        while i < window
            invariant
                i <= window,
                window == self.ring@.len(),
                0 < window <= u32::MAX,
                self.pos < window,
                *self == *old(self),
                best is None <==> forall|j: int| 0 <= j < i ==> self.ring@[j] != h,
                best matches Some(p) ==> (exists|k: int|
                    0 <= k < i && self.ring@[k] == h && p == period_at(
                        window as int,
                        self.pos as int,
                        k,
                    )) && (forall|j: int|
                    0 <= j < i && self.ring@[j] == h ==> p <= period_at(
                        window as int,
                        self.pos as int,
                        j,
                    )),
            decreases window - i,
        {
            if self.ring[i] == h {
                let period: u32 = slot_period(window, self.pos, i);
                match best {
                    Some(p) => {
                        if period < p {
                            best = Some(period);
                        }
                    },
                    None => {
                        best = Some(period);
                    },
                }
            }
            i = i + 1;
        }
        let pos: usize = self.pos;
        proof {
            reveal(RingView::detect);
            match best {
                Some(p) => {
                    let q = choose|q: int| self@.least_period(h, q);
                    assert(self@.least_period(h, p as int));
                    assert(q == p);
                },
                None => {},
            }
            if pos + 1 == window {
                vstd::arithmetic::div_mod::lemma_mod_self_0(window as int);
            } else {
                vstd::arithmetic::div_mod::lemma_small_mod((pos + 1) as nat, window as nat);
            }
        }
        self.ring[pos] = h;
        self.pos = if pos + 1 == window { 0 } else { pos + 1 };
        best
    }
}

/// Restores `curr` from `stable`, word by word, as far as both reach.
pub fn freeze_last_stable(curr: &mut [u32], stable: &[u32])
    ensures
        final(curr)@.len() == old(curr)@.len(),
        forall|i: int|
            0 <= i < old(curr)@.len() ==> final(curr)@[i] == (if i < stable@.len() {
                stable@[i]
            } else {
                old(curr)@[i]
            }),
{
    let n: usize = if curr.len() < stable.len() { curr.len() } else { stable.len() };
    let mut i: usize = 0;
    while i < n
        invariant
            i <= n,
            n <= stable@.len(),
            n <= curr@.len(),
            n == curr@.len() || n == stable@.len(),
            curr@.len() == old(curr)@.len(),
            forall|j: int| 0 <= j < i ==> curr@[j] == stable@[j],
            forall|j: int| i <= j < curr@.len() ==> curr@[j] == old(curr)@[j],
        decreases n - i,
    {
        curr[i] = stable[i];
        i = i + 1;
    }
}

/// How many of `actions` are toggles.
pub open spec fn toggle_count(actions: Seq<Action>) -> nat
    decreases actions.len(),
{
    if actions.len() == 0 {
        0
    } else {
        let one: nat = if actions.last() == Action::Toggle { 1 } else { 0 };
        toggle_count(actions.drop_last()) + one
    }
}

/// The action that a set of competing actions comes down to: Disable
/// if any asks for it, else Enable if any asks for it, else Toggle if
/// the toggles are odd in number, else nothing.
pub open spec fn resolve(actions: Seq<Action>) -> Option<Action> {
    if actions.contains(Action::Disable) {
        Some(Action::Disable)
    } else if actions.contains(Action::Enable) {
        Some(Action::Enable)
    } else if toggle_count(actions) % 2 == 1 {
        Some(Action::Toggle)
    } else {
        None
    }
}

/// Resolves competing actions by commutative precedence.
pub fn clamp_commutative(actions: &[Action]) -> (r: Option<Action>)
    ensures
        r == resolve(actions@),
{
    let n: usize = actions.len();
    let mut disable: bool = false;
    let mut enable: bool = false;
    let mut odd: bool = false;
    let mut i: usize = 0;
    assert(actions@.take(0) =~= Seq::<Action>::empty());
    while i < n
        invariant
            i <= n,
            n == actions@.len(),
            disable == actions@.take(i as int).contains(Action::Disable),
            enable == actions@.take(i as int).contains(Action::Enable),
            odd == (toggle_count(actions@.take(i as int)) % 2 == 1),
        decreases n - i,
    {
        let a: Action = actions[i];
        proof {
            let before = actions@.take(i as int);
            let after = actions@.take(i + 1);
            assert(after.drop_last() =~= before);
            assert(after =~= before.push(a));
            assert forall|x: Action| after.contains(x) == (before.contains(x) || x == a) by {
                if before.contains(x) {
                    let w = choose|w: int| 0 <= w < before.len() && before[w] == x;
                    assert(after[w] == x);
                }
                if x == a {
                    assert(after[i as int] == x);
                }
            }
        }
        match a {
            Action::Disable => {
                disable = true;
            },
            Action::Enable => {
                enable = true;
            },
            Action::Toggle => {
                odd = !odd;
            },
        }
        i = i + 1;
    }
    assert(actions@.take(n as int) =~= actions@);
    if disable {
        Some(Action::Disable)
    } else if enable {
        Some(Action::Enable)
    } else if odd {
        Some(Action::Toggle)
    } else {
        None
    }
}

/// Complements every word of `curr` when `period` is odd; leaves it
/// alone when `period` is even.
pub fn parity_quench(curr: &mut [u32], period: u32)
    ensures
        final(curr)@.len() == old(curr)@.len(),
        forall|i: int|
            0 <= i < old(curr)@.len() ==> final(curr)@[i] == (if period % 2 == 1 {
                !old(curr)@[i]
            } else {
                old(curr)@[i]
            }),
{
    if period % 2 == 1 {
        let n: usize = curr.len();
        let mut i: usize = 0;
        while i < n
            invariant
                i <= n,
                n == curr@.len(),
                curr@.len() == old(curr)@.len(),
                forall|j: int| 0 <= j < i ==> curr@[j] == !old(curr)@[j],
                forall|j: int| i <= j < n ==> curr@[j] == old(curr)@[j],
            decreases n - i,
        {
            let w: u32 = curr[i];
            curr[i] = !w;
            i = i + 1;
        }
    }
}

} // verus!
