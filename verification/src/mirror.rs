//! How the two directions of a sort relate.
//!
//! Both directions keep rows with equal keys in the order of the table.
//! So the descending order is the ascending one read backwards only up
//! to the rows with equal keys: read backwards, each group of such rows
//! stands mirrored. This module says which position the mirror of a
//! position is, and proves that the descending order holds the mirror of
//! what the ascending order holds at the opposite place.

use vstd::prelude::*;
use crate::order::{is_stable_order, lemma_stable_order_unique, precedes, KeyView};

verus! {

/// The number of the positions `lo..hi` that have the key `key`.
pub open spec fn count_key(keys: Seq<KeyView>, key: KeyView, lo: int, hi: int) -> nat
    decreases hi - lo,
{
    if hi <= lo {
        0
    } else if keys[hi - 1] == key {
        count_key(keys, key, lo, hi - 1) + 1
    } else {
        count_key(keys, key, lo, hi - 1)
    }
}

/// The number of the rows before the row `p` that have its key.
pub open spec fn ties_before(keys: Seq<KeyView>, p: int) -> nat {
    count_key(keys, keys[p], 0, p)
}

/// The number of the rows after the row `p` that have its key.
pub open spec fn ties_after(keys: Seq<KeyView>, p: int) -> nat {
    count_key(keys, keys[p], p + 1, keys.len() as int)
}

/// Whether `q` is the mirror of `p`: it has the key of `p`, and as many
/// rows with that key stand before it as stand after `p`.
pub open spec fn is_mirror(keys: Seq<KeyView>, p: int, q: int) -> bool {
    &&& 0 <= q < keys.len()
    &&& keys[q] == keys[p]
    &&& ties_before(keys, q) == ties_after(keys, p)
}

/// The mirror of the position `p` among the rows with its key.
pub open spec fn mirror(keys: Seq<KeyView>, p: int) -> int {
    choose|q: int| is_mirror(keys, p, q)
}

/// The positions `lo..hi` with a key are those of `lo..mid` and those of
/// `mid..hi`.
pub proof fn lemma_count_key_split(keys: Seq<KeyView>, key: KeyView, lo: int, mid: int, hi: int)
    requires
        lo <= mid <= hi,
    ensures
        count_key(keys, key, lo, hi) == count_key(keys, key, lo, mid) + count_key(
            keys,
            key,
            mid,
            hi,
        ),
    decreases hi - mid,
{
    if mid < hi {
        lemma_count_key_split(keys, key, lo, mid, hi - 1);
    }
}

/// Of two rows with the same key the later one has more rows with that
/// key before it, and fewer after it.
pub proof fn lemma_ties_grow(keys: Seq<KeyView>, p: int, q: int)
    requires
        0 <= p < q < keys.len(),
        keys[p] == keys[q],
    ensures
        ties_before(keys, p) < ties_before(keys, q),
        ties_after(keys, p) > ties_after(keys, q),
{
    let key = keys[p];
    let n = keys.len() as int;
    lemma_count_key_split(keys, key, 0, p, q);
    lemma_count_key_split(keys, key, p, p + 1, q);
    assert(count_key(keys, key, p, p + 1) == 1) by {
        assert(count_key(keys, key, p, p) == 0);
    }
    lemma_count_key_split(keys, key, p + 1, q + 1, n);
    assert(count_key(keys, key, p + 1, q + 1) >= 1);
}

/// Among fewer than `hi` rows with a key there is, for each smaller
/// number, a row with the key that has that number of them before it.
proof fn lemma_row_with_ties_before(keys: Seq<KeyView>, key: KeyView, hi: int, v: nat) -> (q: int)
    requires
        0 <= hi <= keys.len(),
        v < count_key(keys, key, 0, hi),
    ensures
        0 <= q < hi,
        keys[q] == key,
        count_key(keys, key, 0, q) == v,
    decreases hi,
{
    if keys[hi - 1] == key && count_key(keys, key, 0, hi - 1) == v {
        hi - 1
    } else {
        lemma_row_with_ties_before(keys, key, hi - 1, v)
    }
}

/// Among the rows from `lo` on with a key there is, for each number
/// smaller than theirs, a row with the key that has that number of them
/// after it.
proof fn lemma_row_with_ties_after(keys: Seq<KeyView>, key: KeyView, lo: int, v: nat) -> (q: int)
    requires
        0 <= lo <= keys.len(),
        v < count_key(keys, key, lo, keys.len() as int),
    ensures
        lo <= q < keys.len(),
        keys[q] == key,
        count_key(keys, key, q + 1, keys.len() as int) == v,
    decreases keys.len() - lo,
{
    let n = keys.len() as int;
    lemma_count_key_split(keys, key, lo, lo + 1, n);
    assert(count_key(keys, key, lo, lo + 1) == if keys[lo] == key {
        1nat
    } else {
        0nat
    }) by {
        assert(count_key(keys, key, lo, lo) == 0);
    }
    if keys[lo] == key && count_key(keys, key, lo + 1, n) == v {
        lo
    } else {
        lemma_row_with_ties_after(keys, key, lo + 1, v)
    }
}

/// A row and the rows with its key before and after it are all the rows
/// with its key.
proof fn lemma_ties_in_all(keys: Seq<KeyView>, p: int)
    requires
        0 <= p < keys.len(),
    ensures
        count_key(keys, keys[p], 0, keys.len() as int) == ties_before(keys, p) + 1 + ties_after(
            keys,
            p,
        ),
{
    let key = keys[p];
    let n = keys.len() as int;
    lemma_count_key_split(keys, key, 0, p, n);
    lemma_count_key_split(keys, key, p, p + 1, n);
    assert(count_key(keys, key, p, p + 1) == 1) by {
        assert(count_key(keys, key, p, p) == 0);
    }
}

/// Every position has exactly one mirror, which `mirror` names.
pub proof fn lemma_mirror(keys: Seq<KeyView>, p: int)
    requires
        0 <= p < keys.len(),
    ensures
        is_mirror(keys, p, mirror(keys, p)),
        forall|q: int| is_mirror(keys, p, q) ==> q == mirror(keys, p),
{
    lemma_ties_in_all(keys, p);
    let found = lemma_row_with_ties_before(
        keys,
        keys[p],
        keys.len() as int,
        ties_after(keys, p),
    );
    assert(is_mirror(keys, p, found));
    let m = mirror(keys, p);
    assert forall|q: int| is_mirror(keys, p, q) implies q == m by {
        if q < m {
            lemma_ties_grow(keys, q, m);
        } else if m < q {
            lemma_ties_grow(keys, m, q);
        }
    }
}

/// Every position is the mirror of a position.
pub proof fn lemma_mirror_onto(keys: Seq<KeyView>, q: int) -> (p: int)
    requires
        0 <= q < keys.len(),
    ensures
        0 <= p < keys.len(),
        mirror(keys, p) == q,
{
    lemma_ties_in_all(keys, q);
    let p = lemma_row_with_ties_after(keys, keys[q], 0, ties_before(keys, q));
    assert(is_mirror(keys, p, q));
    lemma_mirror(keys, p);
    p
}

/// Mirroring turns the order of two rows with the same key around.
pub proof fn lemma_mirror_reverses(keys: Seq<KeyView>, p: int, q: int)
    requires
        0 <= p < q < keys.len(),
        keys[p] == keys[q],
    ensures
        mirror(keys, q) < mirror(keys, p),
{
    lemma_mirror(keys, p);
    lemma_mirror(keys, q);
    lemma_ties_grow(keys, p, q);
    let mp = mirror(keys, p);
    let mq = mirror(keys, q);
    if mp < mq {
        lemma_ties_grow(keys, mp, mq);
    }
}

/// The descending order holds at each place the mirror of what the
/// ascending order holds at the opposite place.
pub proof fn lemma_descending_mirrors_ascending(
    keys: Seq<KeyView>,
    ascending: Seq<usize>,
    descending: Seq<usize>,
)
    requires
        keys.len() <= usize::MAX,
        is_stable_order(keys, false, ascending),
        is_stable_order(keys, true, descending),
    ensures
        forall|i: int|
            0 <= i < keys.len() ==> #[trigger] descending[i] == mirror(
                keys,
                ascending[keys.len() - 1 - i] as int,
            ),
{
    let n = keys.len() as int;
    let mirrored = Seq::new(
        keys.len(),
        |i: int| mirror(keys, ascending[n - 1 - i] as int) as usize,
    );
    assert forall|j: int| 0 <= j < n implies is_mirror(
        keys,
        #[trigger] ascending[j] as int,
        mirror(keys, ascending[j] as int),
    ) by {
        lemma_mirror(keys, ascending[j] as int);
    }
    assert forall|p: usize| p < keys.len() implies mirrored.contains(p) by {
        let source = lemma_mirror_onto(keys, p as int);
        assert(ascending.contains(source as usize));
        let j = choose|j: int| 0 <= j < ascending.len() && ascending[j] == source as usize;
        assert(mirrored[n - 1 - j] == p);
    }
    assert forall|i: int, j: int| 0 <= i < j < mirrored.len() implies precedes(
        keys,
        true,
        mirrored[i] as int,
        mirrored[j] as int,
    ) by {
        let x = ascending[n - 1 - j] as int;
        let y = ascending[n - 1 - i] as int;
        assert(precedes(keys, false, x, y));
        if keys[x] == keys[y] {
            lemma_mirror_reverses(keys, x, y);
        }
    }
    lemma_stable_order_unique(keys, true, mirrored, descending);
}

} // verus!
