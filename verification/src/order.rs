//! The order of the rows of a table under a sort key.
//!
//! Rows are sorted by position: a sort yields the positions `0..n` of the
//! rows in the order in which the rows are to stand. Rows with equal keys
//! keep the order of their positions, in either direction, so for each
//! sequence of keys and each direction there is exactly one such order.

use vstd::prelude::*;

verus! {

/// The value by which a row is sorted.
#[derive(Debug)]
pub enum SortKey {
    /// The key of a row in a numeric column.
    Number(u32),
    /// The key of a row in a text column: the characters of its value.
    Text(Vec<char>),
}

/// What a sort key stands for.
pub enum KeyView {
    /// A number; numbers are ordered by size.
    Number(u32),
    /// A text; texts are ordered as in a dictionary, character by
    /// character, a character with a smaller code point first.
    Text(Seq<char>),
}

impl View for SortKey {
    type V = KeyView;

    open spec fn view(&self) -> KeyView {
        match self {
            SortKey::Number(n) => KeyView::Number(*n),
            SortKey::Text(t) => KeyView::Text(t@),
        }
    }
}

impl DeepView for SortKey {
    type V = KeyView;

    open spec fn deep_view(&self) -> KeyView {
        self@
    }
}

/// How the first of two keys stands to the second.
#[derive(Debug, Clone, Copy, PartialEq, Eq, Structural)]
pub enum Rank {
    /// The first is smaller.
    Before,
    /// The two are equal.
    Same,
    /// The first is greater.
    After,
}

/// Whether the text `a` is smaller than the text `b`: at the first
/// position at which they differ `a` has the smaller character, or `a`
/// ends there and `b` does not.
pub open spec fn text_lt(a: Seq<char>, b: Seq<char>) -> bool
    decreases a.len(),
{
    if b.len() == 0 {
        false
    } else if a.len() == 0 {
        true
    } else if a[0] == b[0] {
        text_lt(a.skip(1), b.skip(1))
    } else {
        a[0] < b[0]
    }
}

/// Whether the key `a` is smaller than the key `b`. A number is smaller
/// than any text.
pub open spec fn key_lt(a: KeyView, b: KeyView) -> bool {
    match (a, b) {
        (KeyView::Number(x), KeyView::Number(y)) => x < y,
        (KeyView::Text(x), KeyView::Text(y)) => text_lt(x, y),
        (KeyView::Number(_), KeyView::Text(_)) => true,
        (KeyView::Text(_), KeyView::Number(_)) => false,
    }
}

/// Whether the row at position `i` stands before the row at position `j`
/// once the rows are sorted: its key comes first in the direction of the
/// sort, or the keys are equal and `i` is the smaller position.
pub open spec fn precedes(keys: Seq<KeyView>, descending: bool, i: int, j: int) -> bool {
    if keys[i] == keys[j] {
        i < j
    } else if descending {
        key_lt(keys[j], keys[i])
    } else {
        key_lt(keys[i], keys[j])
    }
}

/// Whether each position of `order` stands before all that follow it.
pub open spec fn is_sorted(keys: Seq<KeyView>, descending: bool, order: Seq<usize>) -> bool {
    forall|i: int, j: int|
        0 <= i < j < order.len() ==> precedes(keys, descending, order[i] as int, order[j] as int)
}

/// Whether `order` holds positions below `n` only.
pub open spec fn in_range(order: Seq<usize>, n: nat) -> bool {
    forall|i: int| 0 <= i < order.len() ==> order[i] < n
}

/// Whether `order` is the stable order of the rows with the keys `keys`:
/// it holds each position of `keys` once, by ascending or descending key,
/// and positions with equal keys in ascending order.
pub open spec fn is_stable_order(keys: Seq<KeyView>, descending: bool, order: Seq<usize>) -> bool {
    &&& order.len() == keys.len()
    &&& in_range(order, keys.len())
    &&& forall|p: usize| p < keys.len() ==> order.contains(p)
    &&& is_sorted(keys, descending, order)
}

/// No text is smaller than itself.
pub proof fn lemma_text_lt_irreflexive(a: Seq<char>)
    ensures
        !text_lt(a, a),
    decreases a.len(),
{
    if a.len() > 0 {
        lemma_text_lt_irreflexive(a.skip(1));
    }
}

/// A text smaller than a second that is smaller than a third is smaller
/// than the third.
pub proof fn lemma_text_lt_transitive(a: Seq<char>, b: Seq<char>, c: Seq<char>)
    requires
        text_lt(a, b),
        text_lt(b, c),
    ensures
        text_lt(a, c),
    decreases a.len(),
{
    if a.len() > 0 && a[0] == b[0] && b[0] == c[0] {
        lemma_text_lt_transitive(a.skip(1), b.skip(1), c.skip(1));
    }
}

/// Of two different texts one is smaller than the other.
pub proof fn lemma_text_lt_total(a: Seq<char>, b: Seq<char>)
    ensures
        text_lt(a, b) || a == b || text_lt(b, a),
    decreases a.len(),
{
    if a.len() > 0 && b.len() > 0 && a[0] == b[0] {
        lemma_text_lt_total(a.skip(1), b.skip(1));
        if a.skip(1) == b.skip(1) {
            assert(a =~= seq![a[0]] + a.skip(1));
            assert(b =~= seq![b[0]] + b.skip(1));
        }
    } else if a.len() == 0 && b.len() == 0 {
        assert(a =~= b);
    }
}

/// The keys are strictly and totally ordered: no key is smaller than
/// itself, of two different keys one is smaller than the other, and
/// "smaller" carries over from `a` and `b`, `b` and `c` to `a` and `c`.
pub proof fn lemma_key_lt_order(a: KeyView, b: KeyView, c: KeyView)
    ensures
        !key_lt(a, a),
        key_lt(a, b) || a == b || key_lt(b, a),
        key_lt(a, b) && key_lt(b, c) ==> key_lt(a, c),
{
    match (a, b, c) {
        (KeyView::Text(x), KeyView::Text(y), KeyView::Text(z)) => {
            lemma_text_lt_irreflexive(x);
            lemma_text_lt_total(x, y);
            if text_lt(x, y) && text_lt(y, z) {
                lemma_text_lt_transitive(x, y, z);
            }
        },
        (KeyView::Text(x), KeyView::Text(y), _) => {
            lemma_text_lt_irreflexive(x);
            lemma_text_lt_total(x, y);
        },
        (KeyView::Text(x), _, _) => {
            lemma_text_lt_irreflexive(x);
        },
        _ => {},
    }
}

/// The rows are strictly and totally ordered by `precedes`: no position
/// stands before itself, of two different positions one stands before the
/// other, never both, and "before" carries over from `i` and `j`, `j` and
/// `k` to `i` and `k`.
pub proof fn lemma_precedes_order(keys: Seq<KeyView>, descending: bool, i: int, j: int, k: int)
    ensures
        !precedes(keys, descending, i, i),
        i != j ==> precedes(keys, descending, i, j) || precedes(keys, descending, j, i),
        !(precedes(keys, descending, i, j) && precedes(keys, descending, j, i)),
        precedes(keys, descending, i, j) && precedes(keys, descending, j, k) ==> precedes(
            keys,
            descending,
            i,
            k,
        ),
{
    lemma_key_lt_order(keys[i], keys[j], keys[k]);
    lemma_key_lt_order(keys[k], keys[j], keys[i]);
    lemma_key_lt_order(keys[i], keys[j], keys[i]);
    lemma_key_lt_order(keys[j], keys[i], keys[j]);
}

/// A position is among those of `s` with `x` added at the end exactly if
/// it is among those of `s` or is `x`.
proof fn lemma_push_contains(s: Seq<usize>, x: usize, p: usize)
    ensures
        s.push(x).contains(p) <==> s.contains(p) || p == x,
{
    if s.contains(p) {
        let i = choose|i: int| 0 <= i < s.len() && s[i] == p;
        assert(s.push(x)[i] == p);
    }
    if p == x {
        assert(s.push(x)[s.len() as int] == p);
    }
}

/// In a sorted order no position occurs twice, so the positions after the
/// first are all positions but the first.
proof fn lemma_sorted_tail(keys: Seq<KeyView>, descending: bool, order: Seq<usize>, p: usize)
    requires
        is_sorted(keys, descending, order),
        order.len() > 0,
    ensures
        is_sorted(keys, descending, order.skip(1)),
        order.skip(1).contains(p) <==> order.contains(p) && p != order[0],
{
    let tail = order.skip(1);
    assert forall|i: int, j: int| 0 <= i < j < tail.len() implies precedes(
        keys,
        descending,
        tail[i] as int,
        tail[j] as int,
    ) by {
        assert(tail[i] == order[i + 1] && tail[j] == order[j + 1]);
    }
    if tail.contains(p) {
        let i = choose|i: int| 0 <= i < tail.len() && tail[i] == p;
        assert(order[i + 1] == p);
        assert(precedes(keys, descending, order[0] as int, order[i + 1] as int));
    }
    if order.contains(p) && p != order[0] {
        let i = choose|i: int| 0 <= i < order.len() && order[i] == p;
        assert(tail[i - 1] == p);
    }
}

/// Two sorted orders of the same positions are the same order.
pub proof fn lemma_sorted_unique(
    keys: Seq<KeyView>,
    descending: bool,
    a: Seq<usize>,
    b: Seq<usize>,
)
    requires
        is_sorted(keys, descending, a),
        is_sorted(keys, descending, b),
        a.len() == b.len(),
        forall|p: usize| a.contains(p) <==> b.contains(p),
    ensures
        a == b,
    decreases a.len(),
{
    if a.len() > 0 {
        assert(a.contains(a[0]));
        assert(b.contains(b[0]));
        let k = choose|k: int| 0 <= k < b.len() && b[k] == a[0];
        let m = choose|m: int| 0 <= m < a.len() && a[m] == b[0];
        if k > 0 && m > 0 {
            assert(precedes(keys, descending, b[0] as int, b[k] as int));
            assert(precedes(keys, descending, a[0] as int, a[m] as int));
            lemma_precedes_order(keys, descending, a[0] as int, b[0] as int, a[0] as int);
        }
        assert(a[0] == b[0]);
        assert forall|p: usize| a.skip(1).contains(p) <==> b.skip(1).contains(p) by {
            lemma_sorted_tail(keys, descending, a, p);
            lemma_sorted_tail(keys, descending, b, p);
        }
        lemma_sorted_tail(keys, descending, a, 0);
        lemma_sorted_tail(keys, descending, b, 0);
        lemma_sorted_unique(keys, descending, a.skip(1), b.skip(1));
        assert(a =~= seq![a[0]] + a.skip(1));
        assert(b =~= seq![b[0]] + b.skip(1));
    } else {
        assert(a =~= b);
    }
}

/// The rows have one stable order only: two orders that both are the
/// stable order of the same keys in the same direction are equal.
pub proof fn lemma_stable_order_unique(
    keys: Seq<KeyView>,
    descending: bool,
    a: Seq<usize>,
    b: Seq<usize>,
)
    requires
        is_stable_order(keys, descending, a),
        is_stable_order(keys, descending, b),
    ensures
        a == b,
{
    assert forall|p: usize| a.contains(p) <==> b.contains(p) by {
        if a.contains(p) {
            let i = choose|i: int| 0 <= i < a.len() && a[i] == p;
            assert(p < keys.len());
        }
        if b.contains(p) {
            let i = choose|i: int| 0 <= i < b.len() && b[i] == p;
            assert(p < keys.len());
        }
    }
    lemma_sorted_unique(keys, descending, a, b);
}

/// In the stable order rows with equal keys keep the order of their
/// positions, and no row stands before one whose key comes first in the
/// direction of the sort.
pub proof fn lemma_stable_order_keeps_ties(
    keys: Seq<KeyView>,
    descending: bool,
    order: Seq<usize>,
    i: int,
    j: int,
)
    requires
        is_stable_order(keys, descending, order),
        0 <= i < j < order.len(),
    ensures
        keys[order[i] as int] == keys[order[j] as int] ==> order[i] < order[j],
        !descending ==> !key_lt(keys[order[j] as int], keys[order[i] as int]),
        descending ==> !key_lt(keys[order[i] as int], keys[order[j] as int]),
{
    assert(precedes(keys, descending, order[i] as int, order[j] as int));
    lemma_precedes_order(keys, descending, order[i] as int, order[j] as int, order[i] as int);
    lemma_key_lt_order(keys[order[i] as int], keys[order[j] as int], keys[order[i] as int]);
    lemma_key_lt_order(keys[order[j] as int], keys[order[i] as int], keys[order[j] as int]);
}

/// Compares two texts.
pub fn text_rank(a: &Vec<char>, b: &Vec<char>) -> (r: Rank)
    ensures
        r == Rank::Before <==> text_lt(a@, b@),
        r == Rank::Same <==> a@ == b@,
        r == Rank::After <==> text_lt(b@, a@),
{
    proof {
        lemma_text_lt_irreflexive(a@);
        lemma_text_lt_total(a@, b@);
        if text_lt(a@, b@) && text_lt(b@, a@) {
            lemma_text_lt_transitive(a@, b@, a@);
        }
    }
    let mut i: usize = 0;
    assert(a@.skip(0) == a@ && b@.skip(0) == b@);
    while i < a.len() && i < b.len()
        invariant
            i <= a.len(),
            i <= b.len(),
            text_lt(a@, b@) == text_lt(a@.skip(i as int), b@.skip(i as int)),
            text_lt(b@, a@) == text_lt(b@.skip(i as int), a@.skip(i as int)),
            !(text_lt(a@, b@) && text_lt(b@, a@)),
            !text_lt(a@, a@),
            text_lt(a@, b@) || a@ == b@ || text_lt(b@, a@),
        decreases a.len() - i,
    {
        assert(a@.skip(i as int)[0] == a@[i as int] && b@.skip(i as int)[0] == b@[i as int]);
        if a[i] != b[i] {
            return if a[i] < b[i] {
                Rank::Before
            } else {
                Rank::After
            };
        }
        assert(a@.skip(i as int).skip(1) == a@.skip(i + 1));
        assert(b@.skip(i as int).skip(1) == b@.skip(i + 1));
        i += 1;
    }
    if a.len() < b.len() {
        Rank::Before
    } else if a.len() > b.len() {
        Rank::After
    } else {
        Rank::Same
    }
}

/// Compares two keys.
pub fn key_rank(a: &SortKey, b: &SortKey) -> (r: Rank)
    ensures
        r == Rank::Before <==> key_lt(a@, b@),
        r == Rank::Same <==> a@ == b@,
        r == Rank::After <==> key_lt(b@, a@),
{
    match (a, b) {
        (SortKey::Number(x), SortKey::Number(y)) => {
            if *x < *y {
                Rank::Before
            } else if *x > *y {
                Rank::After
            } else {
                Rank::Same
            }
        },
        (SortKey::Text(x), SortKey::Text(y)) => text_rank(x, y),
        (SortKey::Number(_), SortKey::Text(_)) => Rank::Before,
        (SortKey::Text(_), SortKey::Number(_)) => Rank::After,
    }
}

/// Tells whether the row at position `i` stands before the row at
/// position `j` once the rows are sorted.
pub fn before(keys: &Vec<SortKey>, descending: bool, i: usize, j: usize) -> (r: bool)
    requires
        i < keys.len(),
        j < keys.len(),
    ensures
        r == precedes(keys.deep_view(), descending, i as int, j as int),
{
    match key_rank(&keys[i], &keys[j]) {
        Rank::Same => i < j,
        Rank::Before => !descending,
        Rank::After => descending,
    }
}

/// Merges two sorted orders that share no position into one.
fn merge(keys: &Vec<SortKey>, descending: bool, left: &Vec<usize>, right: &Vec<usize>) -> (out:
    Vec<usize>)
    requires
        in_range(left@, keys.len() as nat),
        in_range(right@, keys.len() as nat),
        is_sorted(keys.deep_view(), descending, left@),
        is_sorted(keys.deep_view(), descending, right@),
        forall|i: int, j: int| 0 <= i < left.len() && 0 <= j < right.len() ==> left[i] != right[j],
    ensures
        out.len() == left.len() + right.len(),
        is_sorted(keys.deep_view(), descending, out@),
        forall|p: usize| out@.contains(p) <==> left@.contains(p) || right@.contains(p),
{
    let ghost model = keys.deep_view();
    let mut out: Vec<usize> = Vec::new();
    let mut i: usize = 0;
    let mut j: usize = 0;
    while i < left.len() || j < right.len()
        invariant
            model == keys.deep_view(),
            i <= left.len(),
            j <= right.len(),
            out.len() == i + j,
            in_range(left@, keys.len() as nat),
            in_range(right@, keys.len() as nat),
            is_sorted(model, descending, left@),
            is_sorted(model, descending, right@),
            forall|a: int, b: int|
                0 <= a < left.len() && 0 <= b < right.len() ==> left[a] != right[b],
            is_sorted(model, descending, out@),
            forall|k: int, a: int|
                0 <= k < out.len() && i <= a < left.len() ==> precedes(
                    model,
                    descending,
                    out[k] as int,
                    left[a] as int,
                ),
            forall|k: int, b: int|
                0 <= k < out.len() && j <= b < right.len() ==> precedes(
                    model,
                    descending,
                    out[k] as int,
                    right[b] as int,
                ),
            forall|p: usize|
                out@.contains(p) <==> left@.take(i as int).contains(p) || right@.take(
                    j as int,
                ).contains(p),
        decreases left.len() - i + right.len() - j,
    {
        let ghost merged = out@;
        let take_left = if i == left.len() {
            false
        } else if j == right.len() {
            true
        } else {
            before(keys, descending, left[i], right[j])
        };
        if take_left {
            let x = left[i];
            out.push(x);
            proof {
                assert(left@.take(i + 1) == left@.take(i as int).push(x));
                assert forall|p: usize|
                    out@.contains(p) <==> left@.take(i + 1).contains(p) || right@.take(
                        j as int,
                    ).contains(p) by {
                    lemma_push_contains(merged, x, p);
                    lemma_push_contains(left@.take(i as int), x, p);
                }
                assert forall|k: int, b: int|
                    0 <= k < out.len() && j <= b < right.len() implies precedes(
                    model,
                    descending,
                    out[k] as int,
                    right[b] as int,
                ) by {
                    if k == merged.len() && b > j {
                        lemma_precedes_order(
                            model,
                            descending,
                            x as int,
                            right[j as int] as int,
                            right[b] as int,
                        );
                    }
                }
            }
            i += 1;
        } else {
            let x = right[j];
            out.push(x);
            proof {
                assert(right@.take(j + 1) == right@.take(j as int).push(x));
                assert forall|p: usize|
                    out@.contains(p) <==> left@.take(i as int).contains(p) || right@.take(
                        j + 1,
                    ).contains(p) by {
                    lemma_push_contains(merged, x, p);
                    lemma_push_contains(right@.take(j as int), x, p);
                }
                assert forall|k: int, a: int|
                    0 <= k < out.len() && i <= a < left.len() implies precedes(
                    model,
                    descending,
                    out[k] as int,
                    left[a] as int,
                ) by {
                    if k == merged.len() {
                        lemma_precedes_order(
                            model,
                            descending,
                            x as int,
                            left[i as int] as int,
                            left[a] as int,
                        );
                    }
                }
            }
            j += 1;
        }
    }
    assert(left@.take(i as int) == left@ && right@.take(j as int) == right@);
    out
}

/// The stable order of the positions `lo..hi`.
fn sorted_range(keys: &Vec<SortKey>, descending: bool, lo: usize, hi: usize) -> (out: Vec<usize>)
    requires
        lo <= hi <= keys.len(),
    ensures
        out.len() == hi - lo,
        forall|i: int| 0 <= i < out.len() ==> lo <= #[trigger] out@[i] && out@[i] < hi,
        forall|p: usize| out@.contains(p) <==> lo <= p < hi,
        is_sorted(keys.deep_view(), descending, out@),
    decreases hi - lo,
{
    if hi - lo == 0 {
        Vec::new()
    } else if hi - lo == 1 {
        let mut out: Vec<usize> = Vec::new();
        out.push(lo);
        assert(out@[0] == lo);
        out
    } else {
        let mid = lo + (hi - lo) / 2;
        let left = sorted_range(keys, descending, lo, mid);
        let right = sorted_range(keys, descending, mid, hi);
        let out = merge(keys, descending, &left, &right);
        assert forall|i: int| 0 <= i < out.len() implies lo <= #[trigger] out@[i] && out@[i] < hi by {
            assert(out@.contains(out@[i]));
        }
        out
    }
}

/// Sorts the rows with the keys `keys`: the result holds the positions of
/// the rows, by ascending or descending key, and rows with equal keys in
/// the order of their positions.
pub fn stable_order(keys: &Vec<SortKey>, descending: bool) -> (order: Vec<usize>)
    ensures
        is_stable_order(keys.deep_view(), descending, order@),
{
    sorted_range(keys, descending, 0, keys.len())
}

} // verus!
