//! Canonical order: stable sorting by a three-part key, and order tags
//! made strictly increasing within every source.

use vstd::prelude::*;

verus! {

/// An item with a source, made of two numbers, and an order tag. Its
/// sort key is the source followed by the tag.
pub trait Tagged: Copy {
    /// The source that the item leaves.
    spec fn source(&self) -> (int, int);

    /// The order tag.
    spec fn tag(&self) -> u32;

    /// The same item under another tag.
    spec fn retagged(&self, tag: u32) -> Self;

    /// Retagging changes the tag and nothing else that is looked at
    /// here.
    proof fn lemma_retagged(&self, tag: u32)
        ensures
            self.retagged(tag).tag() == tag,
            self.retagged(tag).source() == self.source(),
            self.retagged(self.tag()) == *self,
    ;

    /// Whether the item comes no later than `other`: by source, then by
    /// tag.
    fn precedes(&self, other: &Self) -> (r: bool)
        ensures
            r == (self.source().0 < other.source().0 || (self.source().0 == other.source().0 && (
            self.source().1 < other.source().1 || (self.source().1 == other.source().1
                && self.tag() <= other.tag())))),
    ;

    /// Whether both items leave the same source.
    fn same_source(&self, other: &Self) -> (r: bool)
        ensures
            r == (self.source() == other.source()),
    ;

    /// Reads the tag.
    fn order_tag(&self) -> (r: u32)
        ensures
            r == self.tag(),
    ;

    /// Computes [`Tagged::retagged`].
    fn with_tag(&self, tag: u32) -> (r: Self)
        ensures
            r == self.retagged(tag),
    ;
}

/// The canonical order: by source, then by tag.
pub open spec fn item_le<T: Tagged>(a: T, b: T) -> bool {
    a.source().0 < b.source().0 || (a.source().0 == b.source().0 && (a.source().1 < b.source().1
        || (a.source().1 == b.source().1 && a.tag() <= b.tag())))
}

/// `s` is in canonical order.
pub open spec fn items_sorted<T: Tagged>(s: Seq<T>) -> bool {
    forall|i: int, j: int| 0 <= i < j < s.len() ==> item_le(s[i], s[j])
}

/// `x` put into the sorted sequence `s`, behind every item that does
/// not come after it.
pub open spec fn insert_item<T: Tagged>(s: Seq<T>, x: T) -> Seq<T>
    decreases s.len(),
{
    if s.len() == 0 {
        seq![x]
    } else if item_le(s.last(), x) {
        s.push(x)
    } else {
        insert_item(s.drop_last(), x).push(s.last())
    }
}

/// `s` in canonical order, items that compare equal keeping their
/// relative order.
pub open spec fn sort_items<T: Tagged>(s: Seq<T>) -> Seq<T>
    decreases s.len(),
{
    if s.len() == 0 {
        Seq::empty()
    } else {
        insert_item(sort_items(s.drop_last()), s.last())
    }
}

/// Inserting adds one item and keeps the rest, in order.
pub proof fn lemma_insert_item<T: Tagged>(s: Seq<T>, x: T)
    ensures
        insert_item(s, x).len() == s.len() + 1,
        insert_item(s, x).to_multiset() == s.to_multiset().insert(x),
        items_sorted(s) ==> items_sorted(insert_item(s, x)),
    decreases s.len(),
{
    broadcast use vstd::seq_lib::group_to_multiset_ensures;

    let r = insert_item(s, x);
    if s.len() == 0 {
        assert(s =~= Seq::<T>::empty());
        assert(r =~= Seq::<T>::empty().push(x));
    } else if item_le(s.last(), x) {
        if items_sorted(s) {
            assert forall|i: int, j: int| 0 <= i < j < r.len() implies item_le(r[i], r[j]) by {
                if j < s.len() {
                    assert(item_le(s[i], s[j]));
                } else if i < s.len() - 1 {
                    assert(item_le(s[i], s[s.len() - 1]));
                }
            }
        }
    } else {
        let front = s.drop_last();
        let inner = insert_item(front, x);
        lemma_insert_item(front, x);
        assert(s =~= front.push(s.last()));
        assert(r.to_multiset() =~= s.to_multiset().insert(x));
        if items_sorted(s) {
            assert(items_sorted(front)) by {
                assert forall|i: int, j: int| 0 <= i < j < front.len() implies item_le(
                    front[i],
                    front[j],
                ) by {
                    assert(item_le(s[i], s[j]));
                }
            }
            assert forall|i: int, j: int| 0 <= i < j < r.len() implies item_le(r[i], r[j]) by {
                if j < inner.len() {
                    assert(item_le(inner[i], inner[j]));
                } else {
                    let y = inner[i];
                    assert(inner.to_multiset().count(y) > 0);
                    if y != x {
                        assert(front.to_multiset().count(y) > 0);
                        assert(front.contains(y));
                        let w = choose|w: int| 0 <= w < front.len() && front[w] == y;
                        assert(item_le(s[w], s[s.len() - 1]));
                    }
                }
            }
        }
    }
}

/// What sorting keeps and what it brings about: the same items, in
/// canonical order.
pub proof fn lemma_sort_items<T: Tagged>(s: Seq<T>)
    ensures
        sort_items(s).len() == s.len(),
        sort_items(s).to_multiset() == s.to_multiset(),
        items_sorted(sort_items(s)),
    decreases s.len(),
{
    broadcast use vstd::seq_lib::group_to_multiset_ensures;

    if s.len() == 0 {
        assert(s =~= Seq::<T>::empty());
    } else {
        let front = s.drop_last();
        lemma_sort_items(front);
        lemma_insert_item(sort_items(front), s.last());
        assert(s =~= front.push(s.last()));
        assert(sort_items(s).to_multiset() =~= s.to_multiset());
    }
}

/// Sorts `items` into canonical order, in place and stably.
pub fn sort_in_place<T: Tagged>(items: &mut Vec<T>)
    ensures
        final(items)@ == sort_items(old(items)@),
{
    let n: usize = items.len();
    let mut i: usize = 0;
    assert(items@.take(0) =~= Seq::<T>::empty());
    while i < n
        invariant
            i <= n,
            n == items@.len(),
            n == old(items)@.len(),
            items@.take(i as int) == sort_items(old(items)@.take(i as int)),
            forall|k: int| i <= k < n ==> items@[k] == old(items)@[k],
        decreases n - i,
    {
        let x: T = items[i];
        let ghost snapshot = items@;
        let ghost sorted = items@.take(i as int);
        let mut j: usize = i;
        proof {
            assert(sorted.take(i as int) =~= sorted);
            assert(sorted.skip(i as int) =~= Seq::<T>::empty());
            assert(insert_item(sorted, x) + Seq::<T>::empty() =~= insert_item(sorted, x));
        }
        while j > 0 && !items[j - 1].precedes(&x)
            invariant
                j <= i < n,
                n == items@.len(),
                items@.len() == snapshot.len(),
                sorted == snapshot.take(i as int),
                forall|k: int| i < k < n ==> items@[k] == snapshot[k],
                forall|k: int| 0 <= k < j ==> items@[k] == snapshot[k],
                forall|k: int| j < k <= i ==> items@[k] == snapshot[k - 1],
                insert_item(sorted, x) == insert_item(sorted.take(j as int), x) + sorted.skip(
                    j as int,
                ),
            decreases j,
        {
            let prev: T = items[j - 1];
            proof {
                let head = sorted.take(j as int);
                assert(head.last() == prev);
                assert(head.drop_last() =~= sorted.take(j - 1));
                assert(insert_item(head, x) == insert_item(head.drop_last(), x).push(prev));
                assert(insert_item(head.drop_last(), x).push(prev) + sorted.skip(j as int)
                    =~= insert_item(head.drop_last(), x) + sorted.skip(j - 1));
            }
            items.set(j, prev);
            j = j - 1;
        }
        items.set(j, x);
        proof {
            let head = sorted.take(j as int);
            let whole = old(items)@.take(i + 1);
            assert(insert_item(head, x) == head.push(x)) by {
                if j > 0 {
                    assert(head.last() == snapshot[j - 1]);
                } else {
                    assert(head =~= Seq::<T>::empty());
                }
            }
            assert(items@.take(i + 1) =~= head.push(x) + sorted.skip(j as int));
            assert(whole.drop_last() =~= old(items)@.take(i as int));
            assert(whole.last() == x);
        }
        i = i + 1;
    }
    assert(items@.take(n as int) =~= items@);
    assert(old(items)@.take(n as int) =~= old(items)@);
}

/// The first `k` items of `s` with their tags made strictly increasing
/// within every source: an item whose source differs from that of the
/// item before it keeps its tag; otherwise a tag that is not above the
/// tag now before it becomes that tag plus one.
pub open spec fn retag<T: Tagged>(s: Seq<T>, k: int) -> Seq<T>
    decreases k,
{
    if k <= 0 {
        Seq::empty()
    } else if k == 1 {
        seq![s[0]]
    } else {
        let front = retag(s, k - 1);
        let x = s[k - 1];
        if x.source() == s[k - 2].source() && x.tag() <= front.last().tag() {
            front.push(x.retagged((front.last().tag() + 1) as u32))
        } else {
            front.push(x)
        }
    }
}

/// No tag runs over while the first `k` items are retagged.
pub open spec fn retag_fits<T: Tagged>(s: Seq<T>, k: int) -> bool
    decreases k,
{
    if k <= 1 {
        true
    } else {
        retag_fits(s, k - 1) && (s[k - 1].source() == s[k - 2].source() && s[k - 1].tag() <= retag(
            s,
            k - 1,
        ).last().tag() ==> retag(s, k - 1).last().tag() < u32::MAX)
    }
}

/// Retagging keeps the number of items and their sources.
pub proof fn lemma_retag<T: Tagged>(s: Seq<T>, k: int)
    requires
        0 <= k <= s.len(),
    ensures
        retag(s, k).len() == k,
        forall|i: int| 0 <= i < k ==> (#[trigger] retag(s, k)[i]).source() == s[i].source(),
    decreases k,
{
    if k > 1 {
        lemma_retag(s, k - 1);
        let front = retag(s, k - 1);
        let x = s[k - 1];
        x.lemma_retagged((front.last().tag() + 1) as u32);
        assert forall|i: int| 0 <= i < k implies (#[trigger] retag(s, k)[i]).source()
            == s[i].source() by {
            if i < k - 1 {
                assert(retag(s, k)[i] == front[i]);
            }
        }
    }
}

/// Whether no tag would run over in [`retag_in_place`].
pub fn retag_would_fit<T: Tagged>(items: &Vec<T>) -> (ok: bool)
    ensures
        ok == retag_fits(items@, items@.len() as int),
{
    let n: usize = items.len();
    if n == 0 {
        return true;
    }
    let mut last_tag: u32 = items[0].order_tag();
    let mut i: usize = 1;
    proof {
        lemma_retag(items@, 1);
    }
    while i < n
        invariant
            1 <= i <= n,
            n == items@.len(),
            retag_fits(items@, i as int),
            last_tag == retag(items@, i as int).last().tag(),
        decreases n - i,
    {
        let x: T = items[i];
        proof {
            lemma_retag(items@, i as int);
            x.lemma_retagged((last_tag + 1) as u32);
        }
        if x.same_source(&items[i - 1]) && x.order_tag() <= last_tag {
            if last_tag == u32::MAX {
                proof {
                    if retag_fits(items@, n as int) {
                        lemma_retag_fits_prefix(items@, i + 1, n as int);
                    }
                }
                return false;
            }
            last_tag = last_tag + 1;
        } else {
            last_tag = x.order_tag();
        }
        i = i + 1;
    }
    true
}

/// If the whole fits, every prefix fits.
pub proof fn lemma_retag_fits_prefix<T: Tagged>(s: Seq<T>, k: int, n: int)
    requires
        k <= n,
        retag_fits(s, n),
    ensures
        retag_fits(s, k),
    decreases n - k,
{
    if k < n {
        lemma_retag_fits_prefix(s, k, n - 1);
    }
}

/// Makes the tags of sorted items strictly increasing within every
/// source, as [`retag`] says.
pub fn retag_in_place<T: Tagged>(items: &mut Vec<T>)
    requires
        retag_fits(old(items)@, old(items)@.len() as int),
    ensures
        final(items)@ == retag(old(items)@, old(items)@.len() as int),
{
    let n: usize = items.len();
    if n == 0 {
        assert(items@ =~= Seq::<T>::empty());
        return ;
    }
    let mut last_tag: u32 = items[0].order_tag();
    let mut prev: T = items[0];
    let mut i: usize = 1;
    proof {
        assert(items@.take(1) =~= seq![items@[0]]);
    }
    while i < n
        invariant
            1 <= i <= n,
            n == items@.len(),
            n == old(items)@.len(),
            retag_fits(old(items)@, n as int),
            items@.take(i as int) == retag(old(items)@, i as int),
            forall|k: int| i <= k < n ==> items@[k] == old(items)@[k],
            last_tag == retag(old(items)@, i as int).last().tag(),
            prev == old(items)@[i - 1],
        decreases n - i,
    {
        let x: T = items[i];
        let ghost before = items@;
        proof {
            lemma_retag(old(items)@, i as int);
            lemma_retag_fits_prefix(old(items)@, i + 1, n as int);
        }
        if x.same_source(&prev) && x.order_tag() <= last_tag {
            last_tag = last_tag + 1;
            items.set(i, x.with_tag(last_tag));
        } else {
            last_tag = x.order_tag();
        }
        proof {
            x.lemma_retagged(last_tag);
            assert(items@.take(i + 1) =~= before.take(i as int).push(items@[i as int]));
        }
        prev = x;
        i = i + 1;
    }
    assert(items@.take(n as int) =~= items@);
}


/// `candidate` in canonical order with its tags made strictly
/// increasing within every source; or `kept`, if a tag would run over.
pub open spec fn canonical_or<T: Tagged>(kept: Seq<T>, candidate: Seq<T>) -> Seq<T> {
    let sorted = sort_items(candidate);
    if retag_fits(sorted, sorted.len() as int) {
        retag(sorted, sorted.len() as int)
    } else {
        kept
    }
}

/// Brings `items` into canonical order and makes their tags strictly
/// increasing within every source. Returns whether no tag ran over; if
/// one would, the items are left sorted but not retagged.
pub fn canonicalize<T: Tagged>(items: &mut Vec<T>) -> (ok: bool)
    ensures
        ok == retag_fits(sort_items(old(items)@), old(items)@.len() as int),
        ok ==> final(items)@ == retag(sort_items(old(items)@), old(items)@.len() as int),
        !ok ==> final(items)@ == sort_items(old(items)@),
        forall|kept: Seq<T>|
            #[trigger] canonical_or(kept, old(items)@) == (if ok {
                final(items)@
            } else {
                kept
            }),
{
    proof {
        lemma_sort_items(items@);
    }
    sort_in_place(items);
    if retag_would_fit(items) {
        retag_in_place(items);
        true
    } else {
        false
    }
}

/// The highest tag among the items of `s` that leave the source of
/// `like`, or nothing if there is none.
pub open spec fn highest_tag<T: Tagged>(s: Seq<T>, like: T) -> Option<u32>
    decreases s.len(),
{
    if s.len() == 0 {
        None
    } else {
        let before = highest_tag(s.drop_last(), like);
        if s.last().source() == like.source() {
            match before {
                Some(t) => if t >= s.last().tag() {
                    Some(t)
                } else {
                    Some(s.last().tag())
                },
                None => Some(s.last().tag()),
            }
        } else {
            before
        }
    }
}

/// Computes [`highest_tag`].
pub fn find_highest_tag<T: Tagged>(items: &Vec<T>, like: &T) -> (r: Option<u32>)
    ensures
        r == highest_tag(items@, *like),
{
    let n: usize = items.len();
    let mut best: Option<u32> = None;
    let mut i: usize = 0;
    assert(items@.take(0) =~= Seq::<T>::empty());
    while i < n
        invariant
            i <= n,
            n == items@.len(),
            best == highest_tag(items@.take(i as int), *like),
        decreases n - i,
    {
        proof {
            assert(items@.take(i + 1).drop_last() =~= items@.take(i as int));
        }
        if items[i].same_source(like) {
            let t: u32 = items[i].order_tag();
            best = match best {
                Some(b) => if b >= t { Some(b) } else { Some(t) },
                None => Some(t),
            };
        }
        i = i + 1;
    }
    assert(items@.take(n as int) =~= items@);
    best
}

/// A copy of `items`.
pub fn copy_items<T: Tagged>(items: &Vec<T>) -> (r: Vec<T>)
    ensures
        r@ == items@,
{
    let n: usize = items.len();
    let mut r: Vec<T> = Vec::new();
    let mut i: usize = 0;
    while i < n
        invariant
            i <= n,
            n == items@.len(),
            r@ == items@.take(i as int),
        decreases n - i,
    {
        r.push(items[i]);
        i = i + 1;
        assert(r@ =~= items@.take(i as int));
    }
    assert(items@.take(n as int) =~= items@);
    r
}


/// `items` in canonical order, with tags made strictly increasing
/// within every source unless one would run over.
pub open spec fn canonical<T: Tagged>(items: Seq<T>) -> Seq<T> {
    let sorted = sort_items(items);
    if retag_fits(sorted, sorted.len() as int) {
        retag(sorted, sorted.len() as int)
    } else {
        sorted
    }
}

/// `x` is `y`, but for its tag.
pub open spec fn same_but_tag<T: Tagged>(x: T, y: T) -> bool {
    exists|t: u32| x == #[trigger] y.retagged(t)
}

/// `x` is an item of `s`, but for its tag.
pub open spec fn retagged_member<T: Tagged>(s: Seq<T>, x: T) -> bool {
    exists|i: int| 0 <= i < s.len() && same_but_tag(x, #[trigger] s[i])
}

/// Every item of the canonical form is one of the given items, but
/// for its tag; and there are as many.
pub proof fn lemma_canonical_members<T: Tagged>(items: Seq<T>)
    ensures
        canonical(items).len() == items.len(),
        forall|k: int|
            0 <= k < items.len() ==> retagged_member(items, #[trigger] canonical(items)[k]),
{
    broadcast use vstd::seq_lib::group_to_multiset_ensures;

    let sorted = sort_items(items);
    lemma_sort_items(items);
    lemma_retag_members(sorted, sorted.len() as int);
    lemma_retag(sorted, sorted.len() as int);
    assert forall|k: int| 0 <= k < items.len() implies retagged_member(
        items,
        #[trigger] canonical(items)[k],
    ) by {
        let y = sorted[k];
        assert(sorted.to_multiset().count(y) > 0);
        assert(items.to_multiset().count(y) > 0);
        assert(items.contains(y));
        let i = choose|i: int| 0 <= i < items.len() && items[i] == y;
        if retag_fits(sorted, sorted.len() as int) {
            assert(same_but_tag(retag(sorted, sorted.len() as int)[k], sorted[k]));
        } else {
            y.lemma_retagged(y.tag());
            assert(y == y.retagged(y.tag()));
        }
        assert(same_but_tag(canonical(items)[k], items[i]));
    }
}

/// Every retagged item is the item at its place, but for its tag.
pub proof fn lemma_retag_members<T: Tagged>(s: Seq<T>, k: int)
    requires
        0 <= k <= s.len(),
    ensures
        forall|i: int| 0 <= i < k ==> same_but_tag(#[trigger] retag(s, k)[i], s[i]),
    decreases k,
{
    if k == 1 {
        s[0].lemma_retagged(s[0].tag());
        assert(retag(s, 1)[0] == s[0].retagged(s[0].tag()));
    } else if k > 1 {
        lemma_retag_members(s, k - 1);
        lemma_retag(s, k - 1);
        let front = retag(s, k - 1);
        let x = s[k - 1];
        x.lemma_retagged(x.tag());
        assert forall|i: int| 0 <= i < k implies same_but_tag(#[trigger] retag(s, k)[i], s[i]) by {
            if i < k - 1 {
                assert(retag(s, k)[i] == front[i]);
                assert(same_but_tag(front[i], s[i]));
            } else {
                if x.source() == s[k - 2].source() && x.tag() <= front.last().tag() {
                    assert(retag(s, k)[i] == x.retagged((front.last().tag() + 1) as u32));
                } else {
                    assert(retag(s, k)[i] == x.retagged(x.tag()));
                }
            }
        }
    }
}

/// Brings `items` into [`canonical`] form.
pub fn make_canonical<T: Tagged>(items: &mut Vec<T>)
    ensures
        final(items)@ == canonical(old(items)@),
{
    proof {
        lemma_sort_items(items@);
    }
    let ok = canonicalize(items);
}

} // verus!
