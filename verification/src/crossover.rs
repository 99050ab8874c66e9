//! Crossover of two genomes.
//!
//! Chunks are crossed position by position. The connections of two
//! chunks are aligned by source and target; the links of two genomes by
//! source and target chunk and bit. What both parents have is blended
//! by random draws, what only one has is taken over. The result is
//! brought into canonical order and cut to size.

use vstd::prelude::*;
use crate::genome::{
    chunk_defect_from, chunk_views, conn_defect_from, link_defect_from, link_gene_defect, max_bits,
    Bits, ChunkGene, ChunkGeneView, ConnGene, Genome, GenomeMeta, GenomeView, LinkGene,
    ValidationError,
};
use crate::order::{canonical, lemma_canonical_members, retagged_member, same_but_tag, Tagged};
use crate::mutations::DrawSource;

verus! {

/// The most chunks that a child has.
pub const MAX_CHUNKS: usize = 64;

/// The most connections that a chunk of a child has.
pub const MAX_CONNS_PER_CHUNK: usize = 256;

/// The most links that a child has.
pub const MAX_LINKS: usize = 256;

/// The most internal bits that a chunk of a child has.
pub const MAX_NN_PER_CHUNK: u32 = 256;

/// A key of four parts, under which the items of two parents are
/// aligned.
#[derive(Debug, Clone, Copy, PartialEq, Eq, Structural)]
pub struct Key {
    pub k0: u32,
    pub k1: u32,
    pub k2: u32,
    pub k3: u32,
}

/// What two parents have under one key: the key, and the item of either
/// parent, if it has one.
#[derive(Debug, Clone, Copy)]
pub struct Pair<T> {
    pub key: Key,
    pub a: Option<T>,
    pub b: Option<T>,
}

/// The order of keys: part by part.
pub open spec fn key_lt(x: Key, y: Key) -> bool {
    x.k0 < y.k0 || (x.k0 == y.k0 && (x.k1 < y.k1 || (x.k1 == y.k1 && (x.k2 < y.k2 || (x.k2
        == y.k2 && x.k3 < y.k3)))))
}

/// Computes [`key_lt`].
pub fn key_before(x: Key, y: Key) -> (r: bool)
    ensures
        r == key_lt(x, y),
{
    x.k0 < y.k0 || (x.k0 == y.k0 && (x.k1 < y.k1 || (x.k1 == y.k1 && (x.k2 < y.k2 || (x.k2
        == y.k2 && x.k3 < y.k3)))))
}

/// The key under which connections are aligned: source section and
/// index, target section and index.
pub open spec fn conn_key(c: ConnGene) -> Key {
    Key { k0: c.from_section as u32, k1: c.from_index, k2: c.to_section as u32, k3: c.to_index }
}

/// The key under which links are aligned: source chunk and output,
/// target chunk and input.
pub open spec fn link_key(l: LinkGene) -> Key {
    Key { k0: l.from_chunk, k1: l.from_out_idx, k2: l.to_chunk, k3: l.to_in_idx }
}

/// The pairs are in strictly increasing key order.
pub open spec fn pairs_sorted<T>(pairs: Seq<Pair<T>>) -> bool {
    forall|i: int, j: int| 0 <= i < j < pairs.len() ==> key_lt(pairs[i].key, pairs[j].key)
}

/// Where `key` belongs among `pairs`: behind the leading pairs whose
/// keys come before it.
pub open spec fn slot<T>(pairs: Seq<Pair<T>>, key: Key) -> int
    decreases pairs.len(),
{
    if pairs.len() == 0 || !key_lt(pairs[0].key, key) {
        0
    } else {
        1 + slot(pairs.skip(1), key)
    }
}

/// The pairs once `item` of parent `side_a` has been taken in under
/// `key`: the pair of that key gets it on that side, in place of what it
/// had there; without such a pair, a new one is put in at its place in
/// key order.
#[verifier::opaque]
pub open spec fn placed<T>(pairs: Seq<Pair<T>>, key: Key, item: T, side_a: bool) -> Seq<Pair<T>> {
    let i = slot(pairs, key);
    if i < pairs.len() && pairs[i].key == key {
        pairs.update(
            i,
            if side_a {
                Pair { key: pairs[i].key, a: Some(item), b: pairs[i].b }
            } else {
                Pair { key: pairs[i].key, a: pairs[i].a, b: Some(item) }
            },
        )
    } else {
        pairs.insert(
            i,
            if side_a {
                Pair { key, a: Some(item), b: None }
            } else {
                Pair { key, a: None, b: Some(item) }
            },
        )
    }
}

/// The slot of `key` is `i` if the pairs before `i` have lower keys
/// and the pair at `i`, if there is one, has not.
proof fn lemma_slot<T>(pairs: Seq<Pair<T>>, key: Key, i: int)
    requires
        0 <= i <= pairs.len(),
        forall|k: int| 0 <= k < i ==> key_lt(#[trigger] pairs[k].key, key),
        i == pairs.len() || !key_lt(pairs[i].key, key),
    ensures
        slot(pairs, key) == i,
    decreases i,
{
    if i > 0 {
        assert(key_lt(pairs[0].key, key));
        let rest = pairs.skip(1);
        assert forall|k: int| 0 <= k < i - 1 implies key_lt(#[trigger] rest[k].key, key) by {
            assert(key_lt(pairs[k + 1].key, key));
        }
        lemma_slot(rest, key, i - 1);
    }
}

/// Takes `item` of parent `side_a` into the pairs under `key`: the
/// pair of that key gets it on that side, in place of what it had there;
/// without such a pair, a new one is put in at its place in key order.
pub fn place<T: Copy>(pairs: &mut Vec<Pair<T>>, key: Key, item: T, side_a: bool)
    requires
        pairs_sorted(old(pairs)@),
    ensures
        pairs_sorted(final(pairs)@),
        exists|i: int|
            0 <= i < final(pairs)@.len() && (#[trigger] final(pairs)@[i]).key == key && (if side_a {
                final(pairs)@[i].a
            } else {
                final(pairs)@[i].b
            }) == Some(item),
        forall|i: int|
            0 <= i < final(pairs)@.len() ==> (#[trigger] final(pairs)@[i]).key == key || old(
                pairs,
            )@.contains(final(pairs)@[i]),
        forall|i: int|
            0 <= i < final(pairs)@.len() && (#[trigger] final(pairs)@[i]).key == key ==> (if side_a {
                final(pairs)@[i].b
            } else {
                final(pairs)@[i].a
            }) is None || exists|j: int|
                0 <= j < old(pairs)@.len() && (#[trigger] old(pairs)@[j]).key == key && (if side_a {
                    old(pairs)@[j].b == final(pairs)@[i].b
                } else {
                    old(pairs)@[j].a == final(pairs)@[i].a
                }),
        forall|j: int|
            0 <= j < old(pairs)@.len() ==> exists|i: int|
                0 <= i < final(pairs)@.len() && (#[trigger] final(pairs)@[i]).key == (
                #[trigger] old(pairs)@[j]).key,
        final(pairs)@.len() <= old(pairs)@.len() + 1,
        final(pairs)@ == placed(old(pairs)@, key, item, side_a),
{
    let n: usize = pairs.len();
    let mut i: usize = 0;
    while i < n && key_before(pairs[i].key, key)
        invariant
            i <= n,
            n == pairs@.len(),
            *pairs == *old(pairs),
            forall|k: int| 0 <= k < i ==> key_lt(pairs@[k].key, key),
        decreases n - i,
    {
        i = i + 1;
    }
    proof {
        reveal(placed);
        lemma_slot(pairs@, key, i as int);
    }
    if i < n && pairs[i].key == key {
        let p: Pair<T> = pairs[i];
        let q: Pair<T> = if side_a {
            Pair { key: p.key, a: Some(item), b: p.b }
        } else {
            Pair { key: p.key, a: p.a, b: Some(item) }
        };
        pairs.set(i, q);
        proof {
            assert(pairs@[i as int].key == key);
            assert forall|k: int| 0 <= k < pairs@.len() implies (#[trigger] pairs@[k]).key == key
                || old(pairs)@.contains(pairs@[k]) by {
                if k != i {
                    assert(old(pairs)@[k] == pairs@[k]);
                }
            }
            assert forall|j: int| 0 <= j < old(pairs)@.len() implies exists|k: int|
                0 <= k < pairs@.len() && (#[trigger] pairs@[k]).key == (#[trigger] old(
                    pairs,
                )@[j]).key by {
                assert(pairs@[j].key == old(pairs)@[j].key);
            }
            assert forall|k: int|
                0 <= k < pairs@.len() && (#[trigger] pairs@[k]).key == key implies (if side_a {
                pairs@[k].b
            } else {
                pairs@[k].a
            }) is None || exists|j: int|
                0 <= j < old(pairs)@.len() && (#[trigger] old(pairs)@[j]).key == key && (if side_a {
                    old(pairs)@[j].b == pairs@[k].b
                } else {
                    old(pairs)@[j].a == pairs@[k].a
                }) by {
                assert(old(pairs)@[k].key == key);
            }
        }
    } else {
        let q: Pair<T> = if side_a {
            Pair { key, a: Some(item), b: None }
        } else {
            Pair { key, a: None, b: Some(item) }
        };
        pairs.insert(i, q);
        proof {
            assert(pairs@[i as int] == q);
            assert forall|x: int, y: int| 0 <= x < y < pairs@.len() implies key_lt(
                pairs@[x].key,
                pairs@[y].key,
            ) by {
                if y < i {
                    assert(key_lt(old(pairs)@[x].key, old(pairs)@[y].key));
                } else if y == i {
                    assert(key_lt(old(pairs)@[x].key, key));
                } else if x == i {
                    assert(pairs@[y] == old(pairs)@[y - 1]);
                    if y - 1 > i {
                        assert(key_lt(old(pairs)@[i as int].key, old(pairs)@[y - 1].key));
                    }
                } else if x < i {
                    assert(pairs@[y] == old(pairs)@[y - 1]);
                    assert(key_lt(old(pairs)@[x].key, old(pairs)@[y - 1].key));
                } else {
                    assert(pairs@[x] == old(pairs)@[x - 1]);
                    assert(pairs@[y] == old(pairs)@[y - 1]);
                    assert(key_lt(old(pairs)@[x - 1].key, old(pairs)@[y - 1].key));
                }
            }
            assert forall|k: int| 0 <= k < pairs@.len() implies (#[trigger] pairs@[k]).key == key
                || old(pairs)@.contains(pairs@[k]) by {
                if k < i {
                    assert(old(pairs)@[k] == pairs@[k]);
                } else if k > i {
                    assert(old(pairs)@[k - 1] == pairs@[k]);
                }
            }
            assert forall|j: int| 0 <= j < old(pairs)@.len() implies exists|k: int|
                0 <= k < pairs@.len() && (#[trigger] pairs@[k]).key == (#[trigger] old(
                    pairs,
                )@[j]).key by {
                if j < i {
                    assert(pairs@[j] == old(pairs)@[j]);
                } else {
                    assert(pairs@[j + 1] == old(pairs)@[j]);
                }
            }
            assert forall|k: int|
                0 <= k < pairs@.len() && (#[trigger] pairs@[k]).key == key implies (if side_a {
                pairs@[k].b
            } else {
                pairs@[k].a
            }) is None || exists|j: int|
                0 <= j < old(pairs)@.len() && (#[trigger] old(pairs)@[j]).key == key && (if side_a {
                    old(pairs)@[j].b == pairs@[k].b
                } else {
                    old(pairs)@[j].a == pairs@[k].a
                }) by {
                if k < i {
                    assert(old(pairs)@[k] == pairs@[k]);
                    assert(key_lt(old(pairs)@[k].key, key));
                } else if k > i {
                    assert(old(pairs)@[k - 1] == pairs@[k]);
                    assert(key_lt(pairs@[i as int].key, pairs@[k].key));
                }
            }
        }
    }
}


/// An item that is aligned under a key.
pub trait Aligned: Copy {
    /// The key of the item.
    spec fn align_key(&self) -> Key;

    /// Computes the key.
    fn key(&self) -> (k: Key)
        ensures
            k == self.align_key(),
    ;
}

impl Aligned for ConnGene {
    open spec fn align_key(&self) -> Key {
        conn_key(*self)
    }

    fn key(&self) -> (k: Key) {
        Key {
            k0: self.from_section as u32,
            k1: self.from_index,
            k2: self.to_section as u32,
            k3: self.to_index,
        }
    }
}

impl Aligned for LinkGene {
    open spec fn align_key(&self) -> Key {
        link_key(*self)
    }

    fn key(&self) -> (k: Key) {
        Key { k0: self.from_chunk, k1: self.from_out_idx, k2: self.to_chunk, k3: self.to_in_idx }
    }
}

/// Every pair holds, on either side, nothing or an item of that parent
/// with the pair's key.
pub open spec fn pairs_from<T: Aligned>(pairs: Seq<Pair<T>>, a: Seq<T>, b: Seq<T>) -> bool {
    forall|i: int|
        0 <= i < pairs.len() ==> ((#[trigger] pairs[i]).a matches Some(x) ==> a.contains(x)
            && x.align_key() == pairs[i].key) && (pairs[i].b matches Some(y) ==> b.contains(y)
            && y.align_key() == pairs[i].key) && (pairs[i].a is Some || pairs[i].b is Some)
}

/// Every item has a pair under its key.
pub open spec fn pairs_cover<T: Aligned>(pairs: Seq<Pair<T>>, items: Seq<T>) -> bool {
    forall|j: int|
        0 <= j < items.len() ==> exists|i: int|
            0 <= i < pairs.len() && (#[trigger] pairs[i]).key == (#[trigger] items[j]).align_key()
}

/// The pairs once every item of `items`, all of parent `side_a`, has
/// been taken in, in their order.
#[verifier::opaque]
pub open spec fn place_all<T: Aligned>(pairs: Seq<Pair<T>>, items: Seq<T>, side_a: bool) -> Seq<
    Pair<T>,
>
    decreases items.len(),
{
    if items.len() == 0 {
        pairs
    } else {
        placed(
            place_all(pairs, items.drop_last(), side_a),
            items.last().align_key(),
            items.last(),
            side_a,
        )
    }
}

/// Taking in the first `k + 1` items is taking in the first `k` and
/// then item `k`.
proof fn lemma_place_all_step<T: Aligned>(pairs: Seq<Pair<T>>, items: Seq<T>, k: int, side_a: bool)
    requires
        0 <= k < items.len(),
    ensures
        place_all(pairs, items.take(k + 1), side_a) == placed(
            place_all(pairs, items.take(k), side_a),
            items[k].align_key(),
            items[k],
            side_a,
        ),
{
    reveal(place_all);
    assert(items.take(k + 1).drop_last() =~= items.take(k));
}

/// Taking in none of the items changes nothing, and the first items
/// up to their number are all of them.
proof fn lemma_place_all_ends<T: Aligned>(pairs: Seq<Pair<T>>, items: Seq<T>, side_a: bool)
    ensures
        place_all(pairs, items.take(0), side_a) == pairs,
        place_all(pairs, items.take(items.len() as int), side_a) == place_all(pairs, items, side_a),
{
    reveal(place_all);
    assert(items.take(items.len() as int) =~= items);
}

/// The items of two parents aligned: those of the first taken in, then
/// those of the second.
pub open spec fn paired<T: Aligned>(a: Seq<T>, b: Seq<T>) -> Seq<Pair<T>> {
    place_all(place_all(Seq::empty(), a, true), b, false)
}

/// Aligns the items of two parents: one pair for every key that
/// occurs, in key order, holding for either parent the last of its items
/// under that key.
pub fn pair_up<T: Aligned>(a: &Vec<T>, b: &Vec<T>) -> (pairs: Vec<Pair<T>>)
    ensures
        pairs_sorted(pairs@),
        pairs_from(pairs@, a@, b@),
        pairs_cover(pairs@, a@),
        pairs_cover(pairs@, b@),
        pairs@.len() <= a@.len() + b@.len(),
        pairs@ == paired(a@, b@),
{
    let mut pairs: Vec<Pair<T>> = Vec::new();
    let n: usize = a.len();
    let mut i: usize = 0;
    proof {
        lemma_place_all_ends(Seq::<Pair<T>>::empty(), a@, true);
        lemma_place_all_ends(place_all(Seq::<Pair<T>>::empty(), a@, true), b@, false);
    }
    while i < n
        invariant
            i <= n,
            n == a@.len(),
            pairs_sorted(pairs@),
            pairs_from(pairs@, a@, Seq::<T>::empty()),
            pairs_cover(pairs@, a@.take(i as int)),
            pairs@.len() <= i,
            pairs@ == place_all(Seq::empty(), a@.take(i as int), true),
        decreases n - i,
    {
        let ghost before = pairs@;
        let item: T = a[i];
        place(&mut pairs, item.key(), item, true);
        proof {
            lemma_place_all_step(Seq::empty(), a@, i as int, true);
            assert(a@.contains(item));
            assert forall|k: int| 0 <= k < pairs@.len() implies ((#[trigger] pairs@[k]).a matches Some(
                x,
            ) ==> a@.contains(x) && x.align_key() == pairs@[k].key) && (pairs@[k].b matches Some(
                y,
            ) ==> Seq::<T>::empty().contains(y) && y.align_key() == pairs@[k].key) && (
            pairs@[k].a is Some || pairs@[k].b is Some) by {
                lemma_placed(before, pairs@, item.align_key(), item, true, k);
                if pairs@[k].key != item.align_key() {
                    let w = choose|w: int| 0 <= w < before.len() && before[w] == pairs@[k];
                    assert(before[w] == pairs@[k]);
                } else {
                    if pairs@[k].b is Some {
                        let j = choose|j: int|
                            0 <= j < before.len() && (#[trigger] before[j]).key
                                == item.align_key() && before[j].b == pairs@[k].b;
                        assert(before[j].b is Some);
                    }
                }
            }
            assert forall|j: int| 0 <= j < i + 1 implies exists|k: int|
                0 <= k < pairs@.len() && (#[trigger] pairs@[k]).key == (#[trigger] a@.take(
                    i + 1,
                )[j]).align_key() by {
                if j < i {
                    assert(a@.take(i as int)[j] == a@.take(i + 1)[j]);
                    let w = choose|w: int|
                        0 <= w < before.len() && (#[trigger] before[w]).key == a@.take(
                            i as int,
                        )[j].align_key();
                    assert(before[w].key == a@[j].align_key());
                }
            }
        }
        i = i + 1;
    }
    let m: usize = b.len();
    let mut j: usize = 0;
    proof {
        assert(a@.take(n as int) =~= a@);
    }
    while j < m
        invariant
            j <= m,
            m == b@.len(),
            n == a@.len(),
            pairs_sorted(pairs@),
            pairs_from(pairs@, a@, b@),
            pairs_cover(pairs@, a@),
            pairs_cover(pairs@, b@.take(j as int)),
            pairs@.len() <= n + j,
            pairs@ == place_all(place_all(Seq::empty(), a@, true), b@.take(j as int), false),
        decreases m - j,
    {
        let ghost before = pairs@;
        let item: T = b[j];
        place(&mut pairs, item.key(), item, false);
        proof {
            lemma_place_all_step(place_all(Seq::empty(), a@, true), b@, j as int, false);
            assert(b@.contains(item));
            assert forall|k: int| 0 <= k < pairs@.len() implies ((#[trigger] pairs@[k]).a matches Some(
                x,
            ) ==> a@.contains(x) && x.align_key() == pairs@[k].key) && (pairs@[k].b matches Some(
                y,
            ) ==> b@.contains(y) && y.align_key() == pairs@[k].key) && (pairs@[k].a is Some
                || pairs@[k].b is Some) by {
                lemma_placed(before, pairs@, item.align_key(), item, false, k);
                if pairs@[k].key != item.align_key() {
                    let w = choose|w: int| 0 <= w < before.len() && before[w] == pairs@[k];
                    assert(before[w] == pairs@[k]);
                } else {
                    if pairs@[k].a is Some {
                        let w = choose|w: int|
                            0 <= w < before.len() && (#[trigger] before[w]).key
                                == item.align_key() && before[w].a == pairs@[k].a;
                        assert(before[w].a is Some);
                    }
                }
            }
            assert forall|x: int| 0 <= x < a@.len() implies exists|k: int|
                0 <= k < pairs@.len() && (#[trigger] pairs@[k]).key == (#[trigger] a@[x]).align_key() by {
                let w = choose|w: int|
                    0 <= w < before.len() && (#[trigger] before[w]).key == a@[x].align_key();
                assert(before[w].key == a@[x].align_key());
            }
            assert forall|x: int| 0 <= x < j + 1 implies exists|k: int|
                0 <= k < pairs@.len() && (#[trigger] pairs@[k]).key == (#[trigger] b@.take(
                    j + 1,
                )[x]).align_key() by {
                if x < j {
                    assert(b@.take(j as int)[x] == b@.take(j + 1)[x]);
                    let w = choose|w: int|
                        0 <= w < before.len() && (#[trigger] before[w]).key == b@.take(
                            j as int,
                        )[x].align_key();
                    assert(before[w].key == b@[x].align_key());
                }
            }
        }
        j = j + 1;
    }
    proof {
        assert(b@.take(m as int) =~= b@);
    }
    pairs
}

/// What [`place`] promises of the pair at `k`, spelled out.
proof fn lemma_placed<T: Copy>(
    before: Seq<Pair<T>>,
    after: Seq<Pair<T>>,
    key: Key,
    item: T,
    side_a: bool,
    k: int,
)
    requires
        0 <= k < after.len(),
        pairs_sorted(after),
        exists|i: int|
            0 <= i < after.len() && (#[trigger] after[i]).key == key && (if side_a {
                after[i].a
            } else {
                after[i].b
            }) == Some(item),
    ensures
        after[k].key == key ==> (if side_a {
            after[k].a
        } else {
            after[k].b
        }) == Some(item),
{
    let i = choose|i: int|
        0 <= i < after.len() && (#[trigger] after[i]).key == key && (if side_a {
            after[i].a
        } else {
            after[i].b
        }) == Some(item);
    if after[k].key == key && i != k {
        if i < k {
            assert(key_lt(after[i].key, after[k].key));
        } else {
            assert(key_lt(after[k].key, after[i].key));
        }
    }
}


/// The larger of two numbers.
pub open spec fn larger(x: u32, y: u32) -> u32 {
    if x >= y {
        x
    } else {
        y
    }
}

/// Bit `i` of `bits`, or clear beyond their end.
pub open spec fn bit_or_clear(bits: Seq<bool>, i: int) -> bool {
    0 <= i < bits.len() && bits[i]
}

/// Draw `at` of the tape `d`, or zero beyond its end.
pub open spec fn draw(d: Seq<u32>, at: int) -> u32 {
    if 0 <= at < d.len() {
        d[at]
    } else {
        0
    }
}

/// Draw `at` decides for the first parent: it is even.
pub open spec fn first(d: Seq<u32>, at: int) -> bool {
    draw(d, at) % 2 == 0
}

/// Computes [`first`].
pub fn decides_first(draws: &Vec<u32>, at: u128) -> (r: bool)
    ensures
        r == first(draws@, at as int),
{
    if at < draws.len() as u128 {
        draws[at as usize] % 2 == 0
    } else {
        true
    }
}

/// The initial bits of one section of a child: `len` bits, each that
/// of the first parent if its draw decides so, else that of the
/// second; a parent that has no such bit counts as clear. The draws
/// are those from `at` on.
pub open spec fn crossed_bits(a: Seq<bool>, b: Seq<bool>, len: int, d: Seq<u32>, at: int) -> Seq<
    bool,
> {
    Seq::new(
        len as nat,
        |i: int|
            if first(d, at + i) {
                bit_or_clear(a, i)
            } else {
                bit_or_clear(b, i)
            },
    )
}

/// Computes [`crossed_bits`].
pub fn cross_bits_with(a: &Bits, b: &Bits, len: usize, draws: &Vec<u32>, at: u128) -> (out: Bits)
    requires
        len <= max_bits(),
        at + len <= u128::MAX,
    ensures
        out@ == crossed_bits(a@, b@, len as int, draws@, at as int),
{
    let mut out: Bits = Bits::repeat(false, len);
    let mut i: usize = 0;
    while i < len
        invariant
            i <= len,
            at + len <= u128::MAX,
            out@.len() == len,
            forall|k: int| 0 <= k < i ==> out@[k] == crossed_bits(a@, b@, len as int, draws@, at as int)[k],
        decreases len - i,
    {
        let bit_a: bool = i < a.len() && a.get(i);
        let bit_b: bool = i < b.len() && b.get(i);
        let take_a: bool = decides_first(draws, at + i as u128);
        out.set(i, if take_a { bit_a } else { bit_b });
        i = i + 1;
    }
    assert(out@ =~= crossed_bits(a@, b@, len as int, draws@, at as int));
    out
}

/// The order tag that two parents blend to: the higher of the two, or
/// that of the first parent, or that of the second.
pub open spec fn blended_tag(tag_a: u32, tag_b: u32, take_higher: bool, take_first: bool) -> u32 {
    if take_higher {
        larger(tag_a, tag_b)
    } else if take_first {
        tag_a
    } else {
        tag_b
    }
}

/// The connection that a pair blends to. Where both parents have one,
/// trigger and action are each taken from the first or the second, and
/// the tag is the higher one, the first or the second; where one parent
/// has one, it is taken over.
pub open spec fn blended_conn(
    a: Option<ConnGene>,
    b: Option<ConnGene>,
    trigger_first: bool,
    action_first: bool,
    take_higher: bool,
    take_first: bool,
) -> ConnGene {
    match (a, b) {
        (Some(x), Some(y)) => ConnGene {
            trigger: if trigger_first { x.trigger } else { y.trigger },
            action: if action_first { x.action } else { y.action },
            order_tag: blended_tag(x.order_tag, y.order_tag, take_higher, take_first),
            ..x
        },
        (Some(x), None) => x,
        (None, Some(y)) => y,
        (None, None) => ConnGene {
            from_section: 0,
            to_section: 0,
            trigger: 0,
            action: 0,
            from_index: 0,
            to_index: 0,
            order_tag: 0,
        },
    }
}

/// Computes [`blended_conn`].
pub fn blend_conn(
    a: Option<ConnGene>,
    b: Option<ConnGene>,
    trigger_first: bool,
    action_first: bool,
    take_higher: bool,
    take_first: bool,
) -> (c: ConnGene)
    ensures
        c == blended_conn(a, b, trigger_first, action_first, take_higher, take_first),
{
    match (a, b) {
        (Some(x), Some(y)) => ConnGene {
            trigger: if trigger_first { x.trigger } else { y.trigger },
            action: if action_first { x.action } else { y.action },
            order_tag: if take_higher {
                if x.order_tag >= y.order_tag { x.order_tag } else { y.order_tag }
            } else if take_first {
                x.order_tag
            } else {
                y.order_tag
            },
            ..x
        },
        (Some(x), None) => x,
        (None, Some(y)) => y,
        (None, None) => ConnGene {
            from_section: 0,
            to_section: 0,
            trigger: 0,
            action: 0,
            from_index: 0,
            to_index: 0,
            order_tag: 0,
        },
    }
}

/// The link that a pair blends to, as [`blended_conn`] for
/// connections.
pub open spec fn blended_link(
    a: Option<LinkGene>,
    b: Option<LinkGene>,
    trigger_first: bool,
    action_first: bool,
    take_higher: bool,
    take_first: bool,
) -> LinkGene {
    match (a, b) {
        (Some(x), Some(y)) => LinkGene {
            trigger: if trigger_first { x.trigger } else { y.trigger },
            action: if action_first { x.action } else { y.action },
            order_tag: blended_tag(x.order_tag, y.order_tag, take_higher, take_first),
            ..x
        },
        (Some(x), None) => x,
        (None, Some(y)) => y,
        (None, None) => LinkGene {
            from_chunk: 0,
            from_out_idx: 0,
            trigger: 0,
            action: 0,
            to_chunk: 0,
            to_in_idx: 0,
            order_tag: 0,
        },
    }
}

/// Computes [`blended_link`].
pub fn blend_link(
    a: Option<LinkGene>,
    b: Option<LinkGene>,
    trigger_first: bool,
    action_first: bool,
    take_higher: bool,
    take_first: bool,
) -> (l: LinkGene)
    ensures
        l == blended_link(a, b, trigger_first, action_first, take_higher, take_first),
{
    match (a, b) {
        (Some(x), Some(y)) => LinkGene {
            trigger: if trigger_first { x.trigger } else { y.trigger },
            action: if action_first { x.action } else { y.action },
            order_tag: if take_higher {
                if x.order_tag >= y.order_tag { x.order_tag } else { y.order_tag }
            } else if take_first {
                x.order_tag
            } else {
                y.order_tag
            },
            ..x
        },
        (Some(x), None) => x,
        (None, Some(y)) => y,
        (None, None) => LinkGene {
            from_chunk: 0,
            from_out_idx: 0,
            trigger: 0,
            action: 0,
            to_chunk: 0,
            to_in_idx: 0,
            order_tag: 0,
        },
    }
}

/// The four decisions of a blend, read from the tape at `at`: whether
/// the trigger, the action and the tag are those of the first parent,
/// and whether the tag is the higher of the two. A pair that only one
/// parent has needs none. Else the first draw decides the trigger, the
/// second the action, the third whether the higher tag is taken, and
/// unless it is, the fourth decides between the two tags.
pub open spec fn chosen(both: bool, d: Seq<u32>, at: int) -> (bool, bool, bool, bool) {
    if !both {
        (true, true, true, true)
    } else {
        (first(d, at), first(d, at + 1), first(d, at + 2), first(d, at + 2) || first(d, at + 3))
    }
}

/// The number of draws that the decisions of a blend take.
pub open spec fn draws_for(both: bool, d: Seq<u32>, at: int) -> int {
    if !both {
        0
    } else if first(d, at + 2) {
        3
    } else {
        4
    }
}

/// Computes [`chosen`], and the place on the tape behind the draws
/// taken.
pub fn choose_with(both: bool, draws: &Vec<u32>, at: u128) -> (r: ((bool, bool, bool, bool), u128))
    requires
        at + 4 <= u128::MAX,
    ensures
        r.0 == chosen(both, draws@, at as int),
        r.1 == at + draws_for(both, draws@, at as int),
{
    if !both {
        return ((true, true, true, true), at);
    }
    let trigger_first: bool = decides_first(draws, at);
    let action_first: bool = decides_first(draws, at + 1);
    let take_higher: bool = decides_first(draws, at + 2);
    if take_higher {
        ((trigger_first, action_first, true, true), at + 3)
    } else {
        let take_first: bool = decides_first(draws, at + 3);
        ((trigger_first, action_first, false, take_first), at + 4)
    }
}

/// The connection leaves and aims at bits that exist in a chunk of the
/// given size.
pub open spec fn conn_in_range(c: ConnGene, ni: u32, no: u32, nn: u32) -> bool {
    ((c.from_section == 0 && c.from_index < ni) || (c.from_section == 1 && c.from_index < nn)) && ((
    c.to_section == 1 && c.to_index < nn) || (c.to_section == 2 && c.to_index < no))
}

/// The blend of the connections of two chunks, and the place on the
/// tape behind it: the pairs are taken in their order, each is blended
/// by the draws at its place, and what is out of range in a chunk of the
/// given size is dropped.
pub open spec fn blend_conns_from(
    pairs: Seq<Pair<ConnGene>>,
    ni: u32,
    no: u32,
    nn: u32,
    d: Seq<u32>,
    at: int,
) -> (Seq<ConnGene>, int)
    decreases pairs.len(),
{
    if pairs.len() == 0 {
        (Seq::empty(), at)
    } else {
        let (before, pos) = blend_conns_from(pairs.drop_last(), ni, no, nn, d, at);
        let p = pairs.last();
        let both = p.a is Some && p.b is Some;
        let ch = chosen(both, d, pos);
        let c = blended_conn(p.a, p.b, ch.0, ch.1, ch.2, ch.3);
        (
            if conn_in_range(c, ni, no, nn) {
                before.push(c)
            } else {
                before
            },
            pos + draws_for(both, d, pos),
        )
    }
}

/// The blend takes at most four draws for a pair.
proof fn lemma_blend_conns_place(
    pairs: Seq<Pair<ConnGene>>,
    ni: u32,
    no: u32,
    nn: u32,
    d: Seq<u32>,
    at: int,
)
    ensures
        at <= blend_conns_from(pairs, ni, no, nn, d, at).1 <= at + 4 * pairs.len(),
    decreases pairs.len(),
{
    if pairs.len() > 0 {
        lemma_blend_conns_place(pairs.drop_last(), ni, no, nn, d, at);
    }
}

/// The tapes `d1` and `d2` hold the same draws from `from` up to `to`.
pub open spec fn same_draws(d1: Seq<u32>, d2: Seq<u32>, from: int, to: int) -> bool {
    forall|p: int| from <= p < to ==> #[trigger] draw(d1, p) == draw(d2, p)
}

/// A blend reads the tape only where it takes draws: two tapes that
/// hold the same draws there give the same blend.
proof fn lemma_blend_conns_local(
    pairs: Seq<Pair<ConnGene>>,
    ni: u32,
    no: u32,
    nn: u32,
    d1: Seq<u32>,
    d2: Seq<u32>,
    at: int,
)
    requires
        same_draws(d1, d2, at, blend_conns_from(pairs, ni, no, nn, d1, at).1),
    ensures
        blend_conns_from(pairs, ni, no, nn, d2, at) == blend_conns_from(pairs, ni, no, nn, d1, at),
    decreases pairs.len(),
{
    if pairs.len() > 0 {
        let front = pairs.drop_last();
        lemma_blend_conns_place(front, ni, no, nn, d1, at);
        let pos = blend_conns_from(front, ni, no, nn, d1, at).1;
        let p = pairs.last();
        let both = p.a is Some && p.b is Some;
        assert(same_draws(d1, d2, at, pos));
        lemma_blend_conns_local(front, ni, no, nn, d1, d2, at);
        if both {
            assert(draw(d1, pos) == draw(d2, pos));
            assert(draw(d1, pos + 1) == draw(d2, pos + 1));
            assert(draw(d1, pos + 2) == draw(d2, pos + 2));
            if !first(d1, pos + 2) {
                assert(draw(d1, pos + 3) == draw(d2, pos + 3));
            }
        }
    }
}

/// Computes [`blend_conns_from`].
fn blend_conns_with(
    pairs: &Vec<Pair<ConnGene>>,
    ni: u32,
    no: u32,
    nn: u32,
    draws: &Vec<u32>,
    at: u128,
) -> (r: (Vec<ConnGene>, u128))
    requires
        at <= u64::MAX,
    ensures
        (r.0@, r.1 as int) == blend_conns_from(pairs@, ni, no, nn, draws@, at as int),
{
    let n: usize = pairs.len();
    let mut blend: Vec<ConnGene> = Vec::new();
    let mut pos: u128 = at;
    let mut i: usize = 0;
    while i < n
        invariant
            i <= n,
            n == pairs@.len(),
            at <= u64::MAX,
            pos <= at + 4 * i,
            (blend@, pos as int) == blend_conns_from(
                pairs@.take(i as int),
                ni,
                no,
                nn,
                draws@,
                at as int,
            ),
        decreases n - i,
    {
        let pair: Pair<ConnGene> = pairs[i];
        let d = choose_with(pair.a.is_some() && pair.b.is_some(), draws, pos);
        let c: ConnGene = blend_conn(pair.a, pair.b, d.0.0, d.0.1, d.0.2, d.0.3);
        let from_ok: bool = if c.from_section == 0 {
            c.from_index < ni
        } else if c.from_section == 1 {
            c.from_index < nn
        } else {
            false
        };
        let to_ok: bool = if c.to_section == 1 {
            c.to_index < nn
        } else if c.to_section == 2 {
            c.to_index < no
        } else {
            false
        };
        proof {
            assert(pairs@.take(i + 1).drop_last() =~= pairs@.take(i as int));
            assert(pairs@.take(i + 1).last() == pair);
        }
        if from_ok && to_ok {
            blend.push(c);
        }
        pos = d.1;
        i = i + 1;
    }
    assert(pairs@.take(n as int) =~= pairs@);
    (blend, pos)
}

/// `items` in canonical form; if that is more than `cap`, the first
/// `cap` of them, again in canonical form.
pub open spec fn trimmed<T: crate::order::Tagged>(items: Seq<T>, cap: int) -> Seq<T> {
    let whole = crate::order::canonical(items);
    if whole.len() > cap {
        crate::order::canonical(whole.take(cap))
    } else {
        whole
    }
}

/// The trimmed form has no more items than the cap, and no more than
/// there were.
pub proof fn lemma_trimmed_len<T: crate::order::Tagged>(items: Seq<T>, cap: int)
    requires
        0 <= cap,
    ensures
        trimmed(items, cap).len() <= cap,
        trimmed(items, cap).len() <= items.len(),
{
    crate::order::lemma_canonical_members(items);
    let whole = crate::order::canonical(items);
    if whole.len() > cap {
        crate::order::lemma_canonical_members(whole.take(cap));
    }
}

/// Brings `items` into [`trimmed`] form.
fn trim<T: crate::order::Tagged>(items: &mut Vec<T>, cap: usize)
    ensures
        final(items)@ == trimmed(old(items)@, cap as int),
{
    crate::order::make_canonical(items);
    if items.len() > cap {
        items.truncate(cap);
        crate::order::make_canonical(items);
    }
}

/// The internal count of a child: the larger of the parents', but no
/// more than [`MAX_NN_PER_CHUNK`].
pub open spec fn child_internals(a: u32, b: u32) -> u32 {
    if larger(a, b) > 256 {
        256
    } else {
        larger(a, b)
    }
}

/// The child of two chunk genes under the tape `d`. It has the larger
/// input and output count of the two, and the internal count of
/// [`child_internals`]. Its initial bits are crossed by the first draws:
/// those of the inputs, then those of the outputs, then those of the
/// internals. Its connections are the blend of the parents' aligned
/// connections under the draws that follow, in [`trimmed`] form with
/// at most [`MAX_CONNS_PER_CHUNK`] of them.
pub open spec fn crossed_chunk(a: ChunkGeneView, b: ChunkGeneView, d: Seq<u32>) -> ChunkGeneView {
    let ni = larger(a.ni, b.ni);
    let no = larger(a.no, b.no);
    let nn = child_internals(a.nn, b.nn);
    ChunkGeneView {
        ni,
        no,
        nn,
        inputs_init: crossed_bits(a.inputs_init, b.inputs_init, ni as int, d, 0),
        outputs_init: crossed_bits(a.outputs_init, b.outputs_init, no as int, d, ni as int),
        internals_init: crossed_bits(a.internals_init, b.internals_init, nn as int, d, ni + no),
        conns: trimmed(
            blend_conns_from(paired(a.conns, b.conns), ni, no, nn, d, ni + no + nn).0,
            256,
        ),
    }
}

/// The number of draws that [`crossed_chunk`] reads from the tape.
pub open spec fn chunk_draws(a: ChunkGeneView, b: ChunkGeneView, d: Seq<u32>) -> int {
    let ni = larger(a.ni, b.ni);
    let no = larger(a.no, b.no);
    let nn = child_internals(a.nn, b.nn);
    blend_conns_from(paired(a.conns, b.conns), ni, no, nn, d, ni + no + nn).1
}

/// Crosses two chunk genes under the given draws: computes
/// [`crossed_chunk`].
pub fn crossover_chunk_with(a: &ChunkGene, b: &ChunkGene, draws: &Vec<u32>) -> (g: ChunkGene)
    requires
        a.ni <= max_bits(),
        b.ni <= max_bits(),
        a.no <= max_bits(),
        b.no <= max_bits(),
    ensures
        g@ == crossed_chunk(a@, b@, draws@),
{
    let ni: u32 = if a.ni >= b.ni { a.ni } else { b.ni };
    let no: u32 = if a.no >= b.no { a.no } else { b.no };
    let widest: u32 = if a.nn >= b.nn { a.nn } else { b.nn };
    let nn: u32 = if widest > MAX_NN_PER_CHUNK { MAX_NN_PER_CHUNK } else { widest };
    let inputs_init = cross_bits_with(&a.inputs_init, &b.inputs_init, ni as usize, draws, 0);
    let outputs_init = cross_bits_with(
        &a.outputs_init,
        &b.outputs_init,
        no as usize,
        draws,
        ni as u128,
    );
    let internals_init = cross_bits_with(
        &a.internals_init,
        &b.internals_init,
        nn as usize,
        draws,
        ni as u128 + no as u128,
    );
    let pairs = pair_up(&a.conns, &b.conns);
    let blend = blend_conns_with(&pairs, ni, no, nn, draws, ni as u128 + no as u128 + nn as u128);
    let mut conns = blend.0;
    trim(&mut conns, MAX_CONNS_PER_CHUNK);
    ChunkGene { ni, no, nn, inputs_init, outputs_init, internals_init, conns }
}

/// The tape `now` is the tape `before` with draws added at its end.
pub open spec fn extends(now: Seq<u32>, before: Seq<u32>) -> bool {
    before.len() <= now.len() && now.take(before.len() as int) == before
}

/// Takes `count` draws from `rng` onto the tape.
fn draw_onto<R: DrawSource>(tape: &mut Vec<u32>, count: usize, rng: &mut R)
    ensures
        extends(final(tape)@, old(tape)@),
        final(tape)@.len() == old(tape)@.len() + count,
{
    let mut i: usize = 0;
    assert(tape@.take(tape@.len() as int) =~= tape@);
    while i < count
        invariant
            i <= count,
            extends(tape@, old(tape)@),
            tape@.len() == old(tape)@.len() + i,
        decreases count - i,
    {
        let ghost before = tape@;
        tape.push(rng.next_u32());
        assert(tape@.take(old(tape)@.len() as int) =~= before.take(old(tape)@.len() as int));
        i = i + 1;
    }
}

/// Takes onto the tape the draws that the decisions of a blend ask
/// for: none for a pair that one parent has, else three, and a fourth if
/// the third is odd.
fn draw_choice<R: DrawSource>(tape: &mut Vec<u32>, both: bool, rng: &mut R)
    ensures
        extends(final(tape)@, old(tape)@),
        final(tape)@.len() == old(tape)@.len() + draws_for(
            both,
            final(tape)@,
            old(tape)@.len() as int,
        ),
{
    assert(tape@.take(tape@.len() as int) =~= tape@);
    if both {
        tape.push(rng.next_u32());
        tape.push(rng.next_u32());
        let third: u32 = rng.next_u32();
        tape.push(third);
        if third % 2 != 0 {
            tape.push(rng.next_u32());
        }
        assert(tape@.take(old(tape)@.len() as int) =~= old(tape)@);
        assert(tape@[old(tape)@.len() as int + 2] == third);
    }
}

/// Takes onto the tape the draws for the decisions of every pair.
fn draw_pairs_onto<R: DrawSource>(
    tape: &mut Vec<u32>,
    pairs: &Vec<Pair<ConnGene>>,
    rng: &mut R,
    Ghost(ni): Ghost<u32>,
    Ghost(no): Ghost<u32>,
    Ghost(nn): Ghost<u32>,
)
    ensures
        final(tape)@.len() == blend_conns_from(
            pairs@,
            ni,
            no,
            nn,
            final(tape)@,
            old(tape)@.len() as int,
        ).1,
{
    let ghost start: int = tape@.len() as int;
    let n: usize = pairs.len();
    let mut i: usize = 0;
    assert(pairs@.take(0) =~= Seq::<Pair<ConnGene>>::empty());
    while i < n
        invariant
            i <= n,
            n == pairs@.len(),
            start <= tape@.len(),
            tape@.len() == blend_conns_from(pairs@.take(i as int), ni, no, nn, tape@, start).1,
        decreases n - i,
    {
        let pair: Pair<ConnGene> = pairs[i];
        let ghost before = tape@;
        draw_choice(tape, pair.a.is_some() && pair.b.is_some(), rng);
        proof {
            assert forall|p: int| start <= p < before.len() implies #[trigger] draw(before, p)
                == draw(tape@, p) by {
                assert(tape@.take(before.len() as int)[p] == before[p]);
            }
            lemma_blend_conns_local(pairs@.take(i as int), ni, no, nn, before, tape@, start);
            assert(pairs@.take(i + 1).drop_last() =~= pairs@.take(i as int));
            assert(pairs@.take(i + 1).last() == pair);
        }
        i = i + 1;
    }
    assert(pairs@.take(n as int) =~= pairs@);
}

/// Draws from `rng` the tape under which two chunk genes are crossed:
/// a draw for every initial bit of the child, then the draws for the
/// decisions of every pair of aligned connections. The tape holds as
/// many draws as the crossing reads.
pub fn draw_chunk_tape<R: DrawSource>(a: &ChunkGene, b: &ChunkGene, rng: &mut R) -> (tape: Vec<u32>)
    ensures
        tape@.len() == chunk_draws(a@, b@, tape@),
{
    let ni: u32 = if a.ni >= b.ni { a.ni } else { b.ni };
    let no: u32 = if a.no >= b.no { a.no } else { b.no };
    let widest: u32 = if a.nn >= b.nn { a.nn } else { b.nn };
    let nn: u32 = if widest > MAX_NN_PER_CHUNK { MAX_NN_PER_CHUNK } else { widest };
    let mut tape: Vec<u32> = Vec::new();
    draw_onto(&mut tape, ni as usize, rng);
    draw_onto(&mut tape, no as usize, rng);
    draw_onto(&mut tape, nn as usize, rng);
    assert(tape@.len() == ni + no + nn);
    let pairs = pair_up(&a.conns, &b.conns);
    draw_pairs_onto(&mut tape, &pairs, rng, Ghost(ni), Ghost(no), Ghost(nn));
    tape
}

/// Crosses two chunk genes by draws from `rng`: as many draws are
/// taken as the crossing reads, and the child is [`crossed_chunk`] under
/// the tape that was drawn.
pub fn crossover_chunk<R: DrawSource>(a: &ChunkGene, b: &ChunkGene, rng: &mut R) -> (g: ChunkGene)
    requires
        a.ni <= max_bits(),
        b.ni <= max_bits(),
        a.no <= max_bits(),
        b.no <= max_bits(),
    ensures
        exists|d: Seq<u32>| d.len() == chunk_draws(a@, b@, d) && g@ == #[trigger] crossed_chunk(a@, b@, d),
{
    let tape = draw_chunk_tape(a, b, rng);
    crossover_chunk_with(a, b, &tape)
}

/// The output and the input that `key` names exist among `chunks`.
pub open spec fn key_in_range(key: Key, chunks: Seq<ChunkGeneView>) -> bool {
    key.k0 < chunks.len() && key.k2 < chunks.len() && key.k1 < chunks[key.k0 as int].no && key.k3
        < chunks[key.k2 as int].ni
}

/// The blend of the links of two genomes for a child with the chunks
/// `chunks`, and the place on the tape behind it: the pairs are taken in
/// their order; a pair whose ends do not exist in the child is passed
/// over, without a draw; every other is blended by the draws at its
/// place.
pub open spec fn blend_links_from(
    pairs: Seq<Pair<LinkGene>>,
    chunks: Seq<ChunkGeneView>,
    d: Seq<u32>,
    at: int,
) -> (Seq<LinkGene>, int)
    decreases pairs.len(),
{
    if pairs.len() == 0 {
        (Seq::empty(), at)
    } else {
        let (before, pos) = blend_links_from(pairs.drop_last(), chunks, d, at);
        let p = pairs.last();
        if key_in_range(p.key, chunks) {
            let both = p.a is Some && p.b is Some;
            let ch = chosen(both, d, pos);
            (
                before.push(blended_link(p.a, p.b, ch.0, ch.1, ch.2, ch.3)),
                pos + draws_for(both, d, pos),
            )
        } else {
            (before, pos)
        }
    }
}

/// A blend of links reads the tape only where it takes draws.
proof fn lemma_blend_links_local(
    pairs: Seq<Pair<LinkGene>>,
    chunks: Seq<ChunkGeneView>,
    d1: Seq<u32>,
    d2: Seq<u32>,
    at: int,
)
    requires
        same_draws(d1, d2, at, blend_links_from(pairs, chunks, d1, at).1),
    ensures
        blend_links_from(pairs, chunks, d2, at) == blend_links_from(pairs, chunks, d1, at),
        at <= blend_links_from(pairs, chunks, d1, at).1,
    decreases pairs.len(),
{
    if pairs.len() > 0 {
        let front = pairs.drop_last();
        lemma_blend_links_place(front, chunks, d1, at);
        let pos = blend_links_from(front, chunks, d1, at).1;
        let p = pairs.last();
        let both = p.a is Some && p.b is Some;
        assert(same_draws(d1, d2, at, pos));
        lemma_blend_links_local(front, chunks, d1, d2, at);
        if key_in_range(p.key, chunks) && both {
            assert(draw(d1, pos) == draw(d2, pos));
            assert(draw(d1, pos + 1) == draw(d2, pos + 1));
            assert(draw(d1, pos + 2) == draw(d2, pos + 2));
            if !first(d1, pos + 2) {
                assert(draw(d1, pos + 3) == draw(d2, pos + 3));
            }
        }
    }
}

/// A blend of links takes its draws behind the place where it starts.
proof fn lemma_blend_links_place(
    pairs: Seq<Pair<LinkGene>>,
    chunks: Seq<ChunkGeneView>,
    d: Seq<u32>,
    at: int,
)
    ensures
        at <= blend_links_from(pairs, chunks, d, at).1,
    decreases pairs.len(),
{
    if pairs.len() > 0 {
        lemma_blend_links_place(pairs.drop_last(), chunks, d, at);
    }
}

/// The number of draws that [`crossed_links`] reads from the tape.
pub open spec fn link_draws(
    a: Seq<LinkGene>,
    b: Seq<LinkGene>,
    chunks: Seq<ChunkGeneView>,
    d: Seq<u32>,
) -> int {
    blend_links_from(paired(a, b), chunks, d, 0).1
}

/// The links of a child with the chunks `chunks` under the tape `d`,
/// before they are trimmed.
pub open spec fn crossed_links(
    a: Seq<LinkGene>,
    b: Seq<LinkGene>,
    chunks: Seq<ChunkGeneView>,
    d: Seq<u32>,
) -> Seq<LinkGene> {
    blend_links_from(paired(a, b), chunks, d, 0).0
}

/// Computes [`key_in_range`].
fn key_fits(key: Key, chunks: &Vec<ChunkGene>) -> (r: bool)
    ensures
        r == key_in_range(key, chunk_views(chunks@)),
{
    let count: usize = chunks.len();
    (key.k0 as usize) < count && (key.k2 as usize) < count && key.k1 < chunks[key.k0 as usize].no
        && key.k3 < chunks[key.k2 as usize].ni
}

/// Crosses the links of two genomes under the given draws: computes
/// [`crossed_links`].
pub fn crossover_links_with(
    a_links: &Vec<LinkGene>,
    b_links: &Vec<LinkGene>,
    chunks: &Vec<ChunkGene>,
    draws: &Vec<u32>,
) -> (links: Vec<LinkGene>)
    ensures
        links@ == crossed_links(a_links@, b_links@, chunk_views(chunks@), draws@),
{
    let pairs = pair_up(a_links, b_links);
    let n: usize = pairs.len();
    let mut links: Vec<LinkGene> = Vec::new();
    let mut pos: u128 = 0;
    let mut i: usize = 0;
    while i < n
        invariant
            i <= n,
            n == pairs@.len(),
            pos <= 4 * i,
            (links@, pos as int) == blend_links_from(
                pairs@.take(i as int),
                chunk_views(chunks@),
                draws@,
                0,
            ),
        decreases n - i,
    {
        let pair: Pair<LinkGene> = pairs[i];
        proof {
            assert(pairs@.take(i + 1).drop_last() =~= pairs@.take(i as int));
            assert(pairs@.take(i + 1).last() == pair);
        }
        if key_fits(pair.key, chunks) {
            let d = choose_with(pair.a.is_some() && pair.b.is_some(), draws, pos);
            let l: LinkGene = blend_link(pair.a, pair.b, d.0.0, d.0.1, d.0.2, d.0.3);
            links.push(l);
            pos = d.1;
        }
        i = i + 1;
    }
    assert(pairs@.take(n as int) =~= pairs@);
    links
}

/// Draws from `rng` the tape under which the links of two genomes are
/// crossed for a child with the chunks `chunks`: the draws for the
/// decisions of every pair of aligned links whose ends exist. The tape
/// holds as many draws as the crossing reads.
pub fn draw_link_tape<R: DrawSource>(
    a_links: &Vec<LinkGene>,
    b_links: &Vec<LinkGene>,
    chunks: &Vec<ChunkGene>,
    rng: &mut R,
) -> (tape: Vec<u32>)
    ensures
        tape@.len() == link_draws(a_links@, b_links@, chunk_views(chunks@), tape@),
{
    let pairs = pair_up(a_links, b_links);
    let n: usize = pairs.len();
    let mut tape: Vec<u32> = Vec::new();
    let mut i: usize = 0;
    assert(pairs@.take(0) =~= Seq::<Pair<LinkGene>>::empty());
    while i < n
        invariant
            i <= n,
            n == pairs@.len(),
            tape@.len() == blend_links_from(
                pairs@.take(i as int),
                chunk_views(chunks@),
                tape@,
                0,
            ).1,
        decreases n - i,
    {
        let pair: Pair<LinkGene> = pairs[i];
        let ghost before = tape@;
        if key_fits(pair.key, chunks) {
            draw_choice(&mut tape, pair.a.is_some() && pair.b.is_some(), rng);
        }
        proof {
            assert(tape@.take(before.len() as int) =~= before);
            assert forall|p: int| 0 <= p < before.len() implies #[trigger] draw(before, p) == draw(
                tape@,
                p,
            ) by {
                assert(tape@.take(before.len() as int)[p] == before[p]);
            }
            lemma_blend_links_local(
                pairs@.take(i as int),
                chunk_views(chunks@),
                before,
                tape@,
                0,
            );
            assert(pairs@.take(i + 1).drop_last() =~= pairs@.take(i as int));
            assert(pairs@.take(i + 1).last() == pair);
        }
        i = i + 1;
    }
    assert(pairs@.take(n as int) =~= pairs@);
    tape
}

/// Crosses the links of two genomes by draws from `rng`: as many
/// draws are taken as the crossing reads, and the links are
/// [`crossed_links`] under the tape that was drawn.
pub fn crossover_links<R: DrawSource>(
    a_links: &Vec<LinkGene>,
    b_links: &Vec<LinkGene>,
    chunks: &Vec<ChunkGene>,
    rng: &mut R,
) -> (links: Vec<LinkGene>)
    ensures
        exists|d: Seq<u32>|
            d.len() == link_draws(a_links@, b_links@, chunk_views(chunks@), d) && links@
                == #[trigger] crossed_links(a_links@, b_links@, chunk_views(chunks@), d),
{
    let tape = draw_link_tape(a_links, b_links, chunks, rng);
    crossover_links_with(a_links, b_links, chunks, &tape)
}

/// The number of chunks of a child: that of the parent with more, but
/// no more than [`MAX_CHUNKS`].
pub open spec fn child_chunks(a: int, b: int) -> int {
    let most = if a >= b { a } else { b };
    if most > 64 {
        64
    } else {
        most
    }
}

/// Every chunk gene has input and output counts that a bit vector can
/// hold, as every valid chunk gene has.
pub open spec fn counts_fit(chunks: Seq<ChunkGene>) -> bool {
    forall|i: int| 0 <= i < chunks.len() ==> (#[trigger] chunks[i]).ni <= max_bits() && chunks[i].no
        <= max_bits()
}

/// Tape `i` of `tapes`, or an empty one beyond their end.
pub open spec fn tape_at(tapes: Seq<Vec<u32>>, i: int) -> Seq<u32> {
    if 0 <= i < tapes.len() {
        tapes[i]@
    } else {
        Seq::empty()
    }
}

/// The chunks of a child under the tapes `tapes`. Where both parents
/// have a chunk at a place, the two are crossed under the tape of that
/// place; where one has, its chunk is taken over.
pub open spec fn crossed_chunks(
    a: Seq<ChunkGeneView>,
    b: Seq<ChunkGeneView>,
    tapes: Seq<Vec<u32>>,
) -> Seq<ChunkGeneView> {
    Seq::new(
        child_chunks(a.len() as int, b.len() as int) as nat,
        |i: int|
            if i < a.len() && i < b.len() {
                crossed_chunk(a[i], b[i], tape_at(tapes, i))
            } else if i < a.len() {
                a[i]
            } else {
                b[i]
            },
    )
}

/// The child of two genomes under the tapes `tapes`: one tape for
/// every chunk of the child, and one more for the links. Its chunks are
/// [`crossed_chunks`]; its links are [`crossed_links`] under the last
/// tape, in [`trimmed`] form with at most [`MAX_LINKS`] of them; it
/// carries the seed and the tag of the first parent. A child with a
/// defect is reported with it; any other is sorted into canonical
/// order.
pub open spec fn crossed(a: GenomeView, b: GenomeView, tapes: Seq<Vec<u32>>) -> Result<
    GenomeView,
    ValidationError,
> {
    let chunks = crossed_chunks(a.chunks, b.chunks, tapes);
    let links = trimmed(
        crossed_links(a.links, b.links, chunks, tape_at(tapes, chunks.len() as int)),
        256,
    );
    match crate::genome::population_defect(chunks, links) {
        Some(e) => Err(e),
        None => Ok((GenomeView { chunks, links, seed: a.seed, tag: a.tag }).sorted()),
    }
}

/// What a crossover returned is what [`crossed`] says.
pub open spec fn crossed_as(
    r: Result<Genome, ValidationError>,
    a: GenomeView,
    b: GenomeView,
    tapes: Seq<Vec<u32>>,
) -> bool {
    match r {
        Ok(g) => crossed(a, b, tapes) == Ok::<GenomeView, ValidationError>(g@),
        Err(e) => crossed(a, b, tapes) == Err::<GenomeView, ValidationError>(e),
    }
}

/// Crosses the chunks of two genomes under the given tapes: computes
/// [`crossed_chunks`].
fn cross_chunks_with(a: &Genome, b: &Genome, tapes: &Vec<Vec<u32>>) -> (chunks: Vec<ChunkGene>)
    requires
        counts_fit(a.chunks@),
        counts_fit(b.chunks@),
    ensures
        chunk_views(chunks@) == crossed_chunks(a@.chunks, b@.chunks, tapes@),
{
    let most: usize = if a.chunks.len() >= b.chunks.len() { a.chunks.len() } else {
        b.chunks.len()
    };
    let count: usize = if most > MAX_CHUNKS { MAX_CHUNKS } else { most };
    let none: Vec<u32> = Vec::new();
    let mut chunks: Vec<ChunkGene> = Vec::new();
    let mut i: usize = 0;
    while i < count
        invariant
            i <= count,
            count == child_chunks(a.chunks@.len() as int, b.chunks@.len() as int),
            counts_fit(a.chunks@),
            counts_fit(b.chunks@),
            none@.len() == 0,
            chunks@.len() == i,
            forall|k: int|
                0 <= k < i ==> (#[trigger] chunks@[k])@ == crossed_chunks(
                    a@.chunks,
                    b@.chunks,
                    tapes@,
                )[k],
        decreases count - i,
    {
        if i < a.chunks.len() && i < b.chunks.len() {
            let tape: &Vec<u32> = if i < tapes.len() { &tapes[i] } else { &none };
            assert(tape@ =~= tape_at(tapes@, i as int));
            let c = crossover_chunk_with(&a.chunks[i], &b.chunks[i], tape);
            chunks.push(c);
        } else if i < a.chunks.len() {
            chunks.push(a.chunks[i].duplicate());
        } else {
            chunks.push(b.chunks[i].duplicate());
        }
        i = i + 1;
    }
    assert(chunk_views(chunks@) =~= crossed_chunks(a@.chunks, b@.chunks, tapes@));
    chunks
}

/// Crosses the links for the chunks of the child, trims them, and
/// makes the genome.
fn finish_with(
    a: &Genome,
    b: &Genome,
    chunks: Vec<ChunkGene>,
    tapes: Ghost<Seq<Vec<u32>>>,
    link_tape: &Vec<u32>,
) -> (r: Result<Genome, ValidationError>)
    requires
        chunk_views(chunks@) == crossed_chunks(a@.chunks, b@.chunks, tapes@),
        link_tape@ == tape_at(tapes@, chunks@.len() as int),
    ensures
        crossed_as(r, a@, b@, tapes@),
{
    let mut links = crossover_links_with(&a.links, &b.links, &chunks, link_tape);
    trim(&mut links, MAX_LINKS);
    let meta = GenomeMeta::new(a.meta.seed, a.meta.tag.clone());
    Genome::new(chunks, links, meta)
}

/// Crosses two genomes under the given tapes: computes [`crossed`].
/// Parents without defect always have a child.
pub fn crossover_with(a: &Genome, b: &Genome, tapes: &Vec<Vec<u32>>) -> (r: Result<
    Genome,
    ValidationError,
>)
    requires
        counts_fit(a.chunks@),
        counts_fit(b.chunks@),
    ensures
        crossed_as(r, a@, b@, tapes@),
        a@.defect() is None && b@.defect() is None ==> r is Ok,
{
    proof {
        if a@.defect() is None && b@.defect() is None {
            lemma_crossed_valid(a@, b@, tapes@);
        }
    }
    let chunks = cross_chunks_with(a, b, tapes);
    let count: usize = chunks.len();
    let none: Vec<u32> = Vec::new();
    let link_tape: &Vec<u32> = if count < tapes.len() { &tapes[count] } else { &none };
    assert(link_tape@ =~= tape_at(tapes@, count as int));
    finish_with(a, b, chunks, Ghost(tapes@), link_tape)
}

/// Crosses two genomes by draws from `rng`: a tape is drawn for
/// every place at which both parents have a chunk, in the order of the
/// places, and then one for the links; the child is [`crossed`] under
/// these tapes. Parents without defect always have a child.
pub fn crossover<R: DrawSource>(a: &Genome, b: &Genome, rng: &mut R) -> (r: Result<
    Genome,
    ValidationError,
>)
    requires
        counts_fit(a.chunks@),
        counts_fit(b.chunks@),
    ensures
        exists|tapes: Seq<Vec<u32>>| #[trigger] crossed_as(r, a@, b@, tapes),
        a@.defect() is None && b@.defect() is None ==> r is Ok,
{
    let most: usize = if a.chunks.len() >= b.chunks.len() { a.chunks.len() } else {
        b.chunks.len()
    };
    let count: usize = if most > MAX_CHUNKS { MAX_CHUNKS } else { most };
    let mut tapes: Vec<Vec<u32>> = Vec::new();
    let mut i: usize = 0;
    while i < count
        invariant
            i <= count,
            tapes@.len() == i,
        decreases count - i,
    {
        if i < a.chunks.len() && i < b.chunks.len() {
            tapes.push(draw_chunk_tape(&a.chunks[i], &b.chunks[i], rng));
        } else {
            tapes.push(Vec::new());
        }
        i = i + 1;
    }
    let chunks = cross_chunks_with(a, b, &tapes);
    let ghost chunk_tapes = tapes@;
    let link_tape = draw_link_tape(&a.links, &b.links, &chunks, rng);
    proof {
        let all = chunk_tapes.push(link_tape);
        assert forall|k: int| 0 <= k < count implies tape_at(all, k) == tape_at(chunk_tapes, k) by {
            assert(all[k] == chunk_tapes[k]);
        }
        assert(crossed_chunks(a@.chunks, b@.chunks, all) =~= crossed_chunks(
            a@.chunks,
            b@.chunks,
            chunk_tapes,
        ));
        assert(tape_at(all, count as int) == link_tape@);
    }
    let r = finish_with(a, b, chunks, Ghost(chunk_tapes.push(link_tape)), &link_tape);
    assert(crossed_as(r, a@, b@, chunk_tapes.push(link_tape)));
    proof {
        if a@.defect() is None && b@.defect() is None {
            lemma_crossed_valid(a@, b@, chunk_tapes.push(link_tape));
        }
    }
    r
}

/// A slot lies among the pairs or right behind them.
proof fn lemma_slot_bounds<T>(pairs: Seq<Pair<T>>, key: Key)
    ensures
        0 <= slot(pairs, key) <= pairs.len(),
    decreases pairs.len(),
{
    if pairs.len() > 0 && key_lt(pairs[0].key, key) {
        lemma_slot_bounds(pairs.skip(1), key);
    }
}

/// Taking in an item of a parent keeps every pair holding items of its
/// parents under its key.
proof fn lemma_placed_from<T: Aligned>(
    pairs: Seq<Pair<T>>,
    item: T,
    side_a: bool,
    a: Seq<T>,
    b: Seq<T>,
)
    requires
        pairs_from(pairs, a, b),
        if side_a {
            a.contains(item)
        } else {
            b.contains(item)
        },
    ensures
        pairs_from(placed(pairs, item.align_key(), item, side_a), a, b),
{
    reveal(placed);
    let key = item.align_key();
    lemma_slot_bounds(pairs, key);
    let i = slot(pairs, key);
    let after = placed(pairs, key, item, side_a);
    assert forall|k: int| 0 <= k < after.len() implies ((#[trigger] after[k]).a matches Some(x)
        ==> a.contains(x) && x.align_key() == after[k].key) && (after[k].b matches Some(y)
        ==> b.contains(y) && y.align_key() == after[k].key) && (after[k].a is Some
        || after[k].b is Some) by {
        if i < pairs.len() && pairs[i].key == key {
            if k != i {
                assert(after[k] == pairs[k]);
            } else {
                assert(pairs[i].a is Some || pairs[i].b is Some);
            }
        } else {
            if k < i {
                assert(after[k] == pairs[k]);
            } else if k > i {
                assert(after[k] == pairs[k - 1]);
            }
        }
    }
}

/// Taking in items of one parent keeps every pair holding items of its
/// parents under its key.
proof fn lemma_place_all_from<T: Aligned>(
    pairs: Seq<Pair<T>>,
    items: Seq<T>,
    side_a: bool,
    a: Seq<T>,
    b: Seq<T>,
)
    requires
        pairs_from(pairs, a, b),
        forall|j: int|
            0 <= j < items.len() ==> if side_a {
                a.contains(#[trigger] items[j])
            } else {
                b.contains(#[trigger] items[j])
            },
    ensures
        pairs_from(place_all(pairs, items, side_a), a, b),
    decreases items.len(),
{
    reveal(place_all);
    if items.len() > 0 {
        let front = items.drop_last();
        assert forall|j: int| 0 <= j < front.len() implies if side_a {
            a.contains(#[trigger] front[j])
        } else {
            b.contains(#[trigger] front[j])
        } by {
            assert(front[j] == items[j]);
        }
        lemma_place_all_from(pairs, front, side_a, a, b);
        assert(items[items.len() - 1] == items.last());
        lemma_placed_from(place_all(pairs, front, side_a), items.last(), side_a, a, b);
    }
}

/// Every pair of two aligned parents holds items of its parents under
/// its key.
pub proof fn lemma_paired_from<T: Aligned>(a: Seq<T>, b: Seq<T>)
    ensures
        pairs_from(paired(a, b), a, b),
{
    let none = Seq::<Pair<T>>::empty();
    assert(pairs_from(none, a, b));
    assert forall|j: int| 0 <= j < a.len() implies a.contains(#[trigger] a[j]) by {}
    lemma_place_all_from(none, a, true, a, b);
    assert forall|j: int| 0 <= j < b.len() implies b.contains(#[trigger] b[j]) by {}
    lemma_place_all_from(place_all(none, a, true), b, false, a, b);
}

/// Every connection gene is without defect in a chunk of the given
/// size.
pub open spec fn conns_fit(s: Seq<ConnGene>, ni: u32, no: u32, nn: u32) -> bool {
    forall|k: int| 0 <= k < s.len() ==> (#[trigger] s[k]).defect_in(ni, no, nn) is None
}

/// Every connection gene is without defect by itself.
pub open spec fn conns_sound(s: Seq<ConnGene>) -> bool {
    forall|k: int| 0 <= k < s.len() ==> (#[trigger] s[k]).defect() is None
}

/// Every link gene is without defect among the chunks.
pub open spec fn links_fit(s: Seq<LinkGene>, chunks: Seq<ChunkGeneView>) -> bool {
    forall|k: int| 0 <= k < s.len() ==> link_gene_defect(#[trigger] s[k], chunks) is None
}

/// Every link gene is without defect by itself.
pub open spec fn links_sound(s: Seq<LinkGene>) -> bool {
    forall|k: int| 0 <= k < s.len() ==> (#[trigger] s[k]).defect() is None
}

/// Connections that fit leave no defect to be found.
proof fn lemma_conns_fit_none(c: ChunkGeneView, i: int)
    requires
        conns_fit(c.conns, c.ni, c.no, c.nn),
    ensures
        conn_defect_from(c, i) is None,
    decreases c.conns.len() - i,
{
    if 0 <= i < c.conns.len() {
        lemma_conns_fit_none(c, i + 1);
    }
}

/// Where no defect is found from `i` on, every connection from there
/// on fits.
proof fn lemma_conns_none_fit(c: ChunkGeneView, i: int, k: int)
    requires
        0 <= i <= k < c.conns.len(),
        conn_defect_from(c, i) is None,
    ensures
        c.conns[k].defect_in(c.ni, c.no, c.nn) is None,
    decreases k - i,
{
    if i < k {
        lemma_conns_none_fit(c, i + 1, k);
    }
}

/// Chunks without defect leave no defect to be found, and the other
/// way round.
proof fn lemma_chunks_none(chunks: Seq<ChunkGeneView>, i: int)
    requires
        forall|k: int| 0 <= k < chunks.len() ==> (#[trigger] chunks[k]).defect() is None,
    ensures
        chunk_defect_from(chunks, i) is None,
    decreases chunks.len() - i,
{
    if 0 <= i < chunks.len() {
        lemma_chunks_none(chunks, i + 1);
    }
}

/// Where no defect is found among the chunks from `i` on, every chunk
/// from there on is without defect.
proof fn lemma_chunks_each(chunks: Seq<ChunkGeneView>, i: int, k: int)
    requires
        0 <= i <= k < chunks.len(),
        chunk_defect_from(chunks, i) is None,
    ensures
        chunks[k].defect() is None,
    decreases k - i,
{
    if i < k {
        lemma_chunks_each(chunks, i + 1, k);
    }
}

/// Links that fit leave no defect to be found.
proof fn lemma_links_fit_none(links: Seq<LinkGene>, chunks: Seq<ChunkGeneView>, i: int)
    requires
        links_fit(links, chunks),
    ensures
        link_defect_from(links, chunks, i) is None,
    decreases links.len() - i,
{
    if 0 <= i < links.len() {
        lemma_links_fit_none(links, chunks, i + 1);
    }
}

/// Where no defect is found among the links from `i` on, every link
/// from there on fits.
proof fn lemma_links_none_fit(links: Seq<LinkGene>, chunks: Seq<ChunkGeneView>, i: int, k: int)
    requires
        0 <= i <= k < links.len(),
        link_defect_from(links, chunks, i) is None,
    ensures
        link_gene_defect(links[k], chunks) is None,
    decreases k - i,
{
    if i < k {
        lemma_links_none_fit(links, chunks, i + 1, k);
    }
}

/// A blend of connections that are without defect by themselves fits
/// the child.
proof fn lemma_blend_conns_fit(
    pairs: Seq<Pair<ConnGene>>,
    ni: u32,
    no: u32,
    nn: u32,
    d: Seq<u32>,
    at: int,
    a: Seq<ConnGene>,
    b: Seq<ConnGene>,
)
    requires
        pairs_from(pairs, a, b),
        conns_sound(a),
        conns_sound(b),
    ensures
        conns_fit(blend_conns_from(pairs, ni, no, nn, d, at).0, ni, no, nn),
    decreases pairs.len(),
{
    if pairs.len() > 0 {
        let front = pairs.drop_last();
        assert forall|i: int| 0 <= i < front.len() implies ((#[trigger] front[i]).a matches Some(x)
            ==> a.contains(x) && x.align_key() == front[i].key) && (front[i].b matches Some(y)
            ==> b.contains(y) && y.align_key() == front[i].key) && (front[i].a is Some
            || front[i].b is Some) by {
            assert(front[i] == pairs[i]);
        }
        lemma_blend_conns_fit(front, ni, no, nn, d, at, a, b);
        let (before, pos) = blend_conns_from(front, ni, no, nn, d, at);
        let p = pairs.last();
        assert(pairs[pairs.len() - 1] == p);
        let both = p.a is Some && p.b is Some;
        let ch = chosen(both, d, pos);
        let c = blended_conn(p.a, p.b, ch.0, ch.1, ch.2, ch.3);
        if conn_in_range(c, ni, no, nn) {
            match (p.a, p.b) {
                (Some(x), Some(y)) => {
                    let i = choose|i: int| 0 <= i < a.len() && a[i] == x;
                    let j = choose|j: int| 0 <= j < b.len() && b[j] == y;
                    assert(a[i].defect() is None && b[j].defect() is None);
                },
                (Some(x), None) => {
                    let i = choose|i: int| 0 <= i < a.len() && a[i] == x;
                    assert(a[i].defect() is None);
                },
                (None, Some(y)) => {
                    let j = choose|j: int| 0 <= j < b.len() && b[j] == y;
                    assert(b[j].defect() is None);
                },
                (None, None) => {},
            }
            assert(c.defect_in(ni, no, nn) is None);
            let all = before.push(c);
            assert forall|k: int| 0 <= k < all.len() implies (#[trigger] all[k]).defect_in(
                ni,
                no,
                nn,
            ) is None by {
                if k < before.len() {
                    assert(all[k] == before[k]);
                }
            }
        }
    }
}

/// A blend of links that are without defect by themselves fits the
/// chunks of the child.
proof fn lemma_blend_links_fit(
    pairs: Seq<Pair<LinkGene>>,
    chunks: Seq<ChunkGeneView>,
    d: Seq<u32>,
    at: int,
    a: Seq<LinkGene>,
    b: Seq<LinkGene>,
)
    requires
        pairs_from(pairs, a, b),
        links_sound(a),
        links_sound(b),
    ensures
        links_fit(blend_links_from(pairs, chunks, d, at).0, chunks),
    decreases pairs.len(),
{
    if pairs.len() > 0 {
        let front = pairs.drop_last();
        assert forall|i: int| 0 <= i < front.len() implies ((#[trigger] front[i]).a matches Some(x)
            ==> a.contains(x) && x.align_key() == front[i].key) && (front[i].b matches Some(y)
            ==> b.contains(y) && y.align_key() == front[i].key) && (front[i].a is Some
            || front[i].b is Some) by {
            assert(front[i] == pairs[i]);
        }
        lemma_blend_links_fit(front, chunks, d, at, a, b);
        let (before, pos) = blend_links_from(front, chunks, d, at);
        let p = pairs.last();
        assert(pairs[pairs.len() - 1] == p);
        if key_in_range(p.key, chunks) {
            let both = p.a is Some && p.b is Some;
            let ch = chosen(both, d, pos);
            let l = blended_link(p.a, p.b, ch.0, ch.1, ch.2, ch.3);
            match (p.a, p.b) {
                (Some(x), Some(y)) => {
                    let i = choose|i: int| 0 <= i < a.len() && a[i] == x;
                    let j = choose|j: int| 0 <= j < b.len() && b[j] == y;
                    assert(a[i].defect() is None && b[j].defect() is None);
                },
                (Some(x), None) => {
                    let i = choose|i: int| 0 <= i < a.len() && a[i] == x;
                    assert(a[i].defect() is None);
                },
                (None, Some(y)) => {
                    let j = choose|j: int| 0 <= j < b.len() && b[j] == y;
                    assert(b[j].defect() is None);
                },
                (None, None) => {},
            }
            assert(link_gene_defect(l, chunks) is None);
            let all = before.push(l);
            assert forall|k: int| 0 <= k < all.len() implies link_gene_defect(
                #[trigger] all[k],
                chunks,
            ) is None by {
                if k < before.len() {
                    assert(all[k] == before[k]);
                }
            }
        }
    }
}

/// Trimming keeps connections fitting: it changes tags only.
proof fn lemma_trimmed_conns_fit(items: Seq<ConnGene>, cap: int, ni: u32, no: u32, nn: u32)
    requires
        0 <= cap,
        conns_fit(items, ni, no, nn),
    ensures
        conns_fit(trimmed(items, cap), ni, no, nn),
{
    let whole = canonical(items);
    lemma_canonical_members(items);
    assert forall|k: int| 0 <= k < whole.len() implies (#[trigger] whole[k]).defect_in(
        ni,
        no,
        nn,
    ) is None by {
        assert(retagged_member(items, whole[k]));
        let i = choose|i: int| 0 <= i < items.len() && same_but_tag(whole[k], #[trigger] items[i]);
        let t = choose|t: u32| whole[k] == #[trigger] items[i].retagged(t);
        assert(items[i].defect_in(ni, no, nn) is None);
    }
    if whole.len() > cap {
        let cut = whole.take(cap);
        let again = canonical(cut);
        lemma_canonical_members(cut);
        assert forall|k: int| 0 <= k < again.len() implies (#[trigger] again[k]).defect_in(
            ni,
            no,
            nn,
        ) is None by {
            assert(retagged_member(cut, again[k]));
            let i = choose|i: int| 0 <= i < cut.len() && same_but_tag(again[k], #[trigger] cut[i]);
            let t = choose|t: u32| again[k] == #[trigger] cut[i].retagged(t);
            assert(cut[i] == whole[i]);
            assert(whole[i].defect_in(ni, no, nn) is None);
        }
    }
}

/// Trimming keeps links fitting: it changes tags only.
proof fn lemma_trimmed_links_fit(items: Seq<LinkGene>, cap: int, chunks: Seq<ChunkGeneView>)
    requires
        0 <= cap,
        links_fit(items, chunks),
    ensures
        links_fit(trimmed(items, cap), chunks),
{
    let whole = canonical(items);
    lemma_canonical_members(items);
    assert forall|k: int| 0 <= k < whole.len() implies link_gene_defect(
        #[trigger] whole[k],
        chunks,
    ) is None by {
        assert(retagged_member(items, whole[k]));
        let i = choose|i: int| 0 <= i < items.len() && same_but_tag(whole[k], #[trigger] items[i]);
        let t = choose|t: u32| whole[k] == #[trigger] items[i].retagged(t);
        assert(link_gene_defect(items[i], chunks) is None);
    }
    if whole.len() > cap {
        let cut = whole.take(cap);
        let again = canonical(cut);
        lemma_canonical_members(cut);
        assert forall|k: int| 0 <= k < again.len() implies link_gene_defect(
            #[trigger] again[k],
            chunks,
        ) is None by {
            assert(retagged_member(cut, again[k]));
            let i = choose|i: int| 0 <= i < cut.len() && same_but_tag(again[k], #[trigger] cut[i]);
            let t = choose|t: u32| again[k] == #[trigger] cut[i].retagged(t);
            assert(cut[i] == whole[i]);
            assert(link_gene_defect(whole[i], chunks) is None);
        }
    }
}

/// The child of two chunk genes without defect is without defect,
/// whatever the draws.
pub proof fn lemma_crossed_chunk_valid(a: ChunkGeneView, b: ChunkGeneView, d: Seq<u32>)
    requires
        a.defect() is None,
        b.defect() is None,
    ensures
        crossed_chunk(a, b, d).defect() is None,
{
    let ni = larger(a.ni, b.ni);
    let no = larger(a.no, b.no);
    let nn = child_internals(a.nn, b.nn);
    assert(conns_sound(a.conns)) by {
        assert forall|k: int| 0 <= k < a.conns.len() implies (#[trigger] a.conns[k]).defect() is None by {
            lemma_conns_none_fit(a, 0, k);
        }
    }
    assert(conns_sound(b.conns)) by {
        assert forall|k: int| 0 <= k < b.conns.len() implies (#[trigger] b.conns[k]).defect() is None by {
            lemma_conns_none_fit(b, 0, k);
        }
    }
    lemma_paired_from(a.conns, b.conns);
    lemma_blend_conns_fit(paired(a.conns, b.conns), ni, no, nn, d, ni + no + nn, a.conns, b.conns);
    let blend = blend_conns_from(paired(a.conns, b.conns), ni, no, nn, d, ni + no + nn).0;
    lemma_trimmed_conns_fit(blend, 256, ni, no, nn);
    lemma_conns_fit_none(crossed_chunk(a, b, d), 0);
}

/// The child of two genomes without defect is without defect, whatever
/// the draws: crossing them does not fail.
pub proof fn lemma_crossed_valid(a: GenomeView, b: GenomeView, tapes: Seq<Vec<u32>>)
    requires
        a.defect() is None,
        b.defect() is None,
    ensures
        crossed(a, b, tapes) is Ok,
{
    let chunks = crossed_chunks(a.chunks, b.chunks, tapes);
    assert forall|k: int| 0 <= k < chunks.len() implies (#[trigger] chunks[k]).defect() is None by {
        if k < a.chunks.len() {
            lemma_chunks_each(a.chunks, 0, k);
        }
        if k < b.chunks.len() {
            lemma_chunks_each(b.chunks, 0, k);
        }
        if k < a.chunks.len() && k < b.chunks.len() {
            lemma_crossed_chunk_valid(a.chunks[k], b.chunks[k], tape_at(tapes, k));
        }
    }
    lemma_chunks_none(chunks, 0);
    assert(links_sound(a.links)) by {
        assert forall|k: int| 0 <= k < a.links.len() implies (#[trigger] a.links[k]).defect() is None by {
            lemma_links_none_fit(a.links, a.chunks, 0, k);
        }
    }
    assert(links_sound(b.links)) by {
        assert forall|k: int| 0 <= k < b.links.len() implies (#[trigger] b.links[k]).defect() is None by {
            lemma_links_none_fit(b.links, b.chunks, 0, k);
        }
    }
    lemma_paired_from(a.links, b.links);
    let d = tape_at(tapes, chunks.len() as int);
    lemma_blend_links_fit(paired(a.links, b.links), chunks, d, 0, a.links, b.links);
    lemma_trimmed_links_fit(crossed_links(a.links, b.links, chunks, d), 256, chunks);
    lemma_links_fit_none(
        trimmed(crossed_links(a.links, b.links, chunks, d), 256),
        chunks,
        0,
    );
}

} // verus!
