//! Stable ordering of scalar-tagged pixels: what it is, and a merge sort that computes it.

use vstd::prelude::*;
use crate::options::SortKind;
use crate::pixel::Rgba8;
use crate::scalar::{lemma_le_transitive, lemma_level_transitive, lemma_lt_asymmetric, Scalar};

verus! {

/// A pixel together with the scalar it is ordered by.
pub type Tagged = (Scalar, Rgba8);

/// `a` has to come before `b`: it is strictly below it in ascending order, strictly above
/// it in descending order. Level scalars never have to trade places.
pub open spec fn precedes(kind: SortKind, a: Scalar, b: Scalar) -> bool {
    match kind {
        SortKind::LeftToRight => a.lt(b),
        SortKind::RightToLeft => b.lt(a),
    }
}

/// `s` with `e` put behind every entry that need not come after it.
pub open spec fn insert_stable(s: Seq<Tagged>, e: Tagged, kind: SortKind) -> Seq<Tagged>
    decreases s.len(),
{
    if s.len() > 0 && precedes(kind, e.0, s.last().0) {
        insert_stable(s.drop_last(), e, kind).push(s.last())
    } else {
        s.push(e)
    }
}

/// The stable sort of `s`: its entries in order, level ones in the order they had in `s`.
pub open spec fn stable_sort(s: Seq<Tagged>, kind: SortKind) -> Seq<Tagged>
    decreases s.len(),
{
    if s.len() == 0 {
        s
    } else {
        insert_stable(stable_sort(s.drop_last(), kind), s.last(), kind)
    }
}

/// No entry of `s` has to come before an earlier one.
pub open spec fn ordered(s: Seq<Tagged>, kind: SortKind) -> bool {
    forall|i: int, j: int| 0 <= i < j < s.len() ==> !precedes(kind, #[trigger] s[j].0, #[trigger] s[i].0)
}

/// Two ordered sequences interleaved into one; where entries are level, those of `a`
/// come first.
pub open spec fn merge_stable(a: Seq<Tagged>, b: Seq<Tagged>, kind: SortKind) -> Seq<Tagged>
    decreases a.len() + b.len(),
{
    if a.len() == 0 {
        b
    } else if b.len() == 0 {
        a
    } else if precedes(kind, b.last().0, a.last().0) {
        merge_stable(a.drop_last(), b, kind).push(a.last())
    } else {
        merge_stable(a, b.drop_last(), kind).push(b.last())
    }
}

/// `precedes` is a strict weak order: it chains with itself and with its own negation.
pub proof fn lemma_precedes_chain(kind: SortKind, a: Scalar, b: Scalar, c: Scalar)
    ensures
        !(precedes(kind, a, b) && precedes(kind, b, a)),
        !precedes(kind, b, a) && !precedes(kind, c, b) ==> !precedes(kind, c, a),
        precedes(kind, a, b) && !precedes(kind, c, b) ==> precedes(kind, a, c),
        !precedes(kind, b, a) && precedes(kind, b, c) ==> precedes(kind, a, c),
        precedes(kind, a, b) && precedes(kind, b, c) ==> precedes(kind, a, c),
{
    lemma_lt_asymmetric(a, b);
    lemma_lt_asymmetric(b, c);
    lemma_lt_asymmetric(a, c);
    match kind {
        SortKind::LeftToRight => {
            if a.le(b) && b.le(c) {
                lemma_le_transitive(a, b, c);
            }
            if c.le(a) && a.le(b) {
                lemma_le_transitive(c, a, b);
            }
            if b.le(c) && c.le(a) {
                lemma_le_transitive(b, c, a);
            }
        },
        SortKind::RightToLeft => {
            if c.le(b) && b.le(a) {
                lemma_le_transitive(c, b, a);
            }
            if b.le(a) && a.le(c) {
                lemma_le_transitive(b, a, c);
            }
            if a.le(c) && c.le(b) {
                lemma_le_transitive(a, c, b);
            }
        },
    }
}

/// Sorting keeps the number of entries.
pub proof fn lemma_sort_len(s: Seq<Tagged>, kind: SortKind)
    ensures
        stable_sort(s, kind).len() == s.len(),
    decreases s.len(),
{
    if s.len() > 0 {
        lemma_sort_len(s.drop_last(), kind);
        lemma_insert_len(stable_sort(s.drop_last(), kind), s.last(), kind);
    }
}

proof fn lemma_insert_len(s: Seq<Tagged>, e: Tagged, kind: SortKind)
    ensures
        insert_stable(s, e, kind).len() == s.len() + 1,
    decreases s.len(),
{
    if s.len() > 0 && precedes(kind, e.0, s.last().0) {
        lemma_insert_len(s.drop_last(), e, kind);
    }
}

proof fn lemma_merge_len(a: Seq<Tagged>, b: Seq<Tagged>, kind: SortKind)
    ensures
        merge_stable(a, b, kind).len() == a.len() + b.len(),
    decreases a.len() + b.len(),
{
    if a.len() == 0 || b.len() == 0 {
    } else if precedes(kind, b.last().0, a.last().0) {
        lemma_merge_len(a.drop_last(), b, kind);
    } else {
        lemma_merge_len(a, b.drop_last(), kind);
    }
}

/// Inserting into a merge is merging with the insertion.
proof fn lemma_insert_merge(a: Seq<Tagged>, b: Seq<Tagged>, e: Tagged, kind: SortKind)
    ensures
        insert_stable(merge_stable(a, b, kind), e, kind) == merge_stable(
            a,
            insert_stable(b, e, kind),
            kind,
        ),
    decreases a.len() + b.len(),
{
    let merged = merge_stable(a, b, kind);
    let grown = insert_stable(b, e, kind);
    lemma_insert_len(b, e, kind);
    lemma_merge_len(a, b, kind);
    if a.len() == 0 {
    } else if b.len() == 0 {
        assert(grown == seq![e]) by {
            assert(grown =~= seq![e]);
        }
        assert(grown.last() == e);
        assert(grown.drop_last() =~= b);
        if precedes(kind, e.0, a.last().0) {
            lemma_insert_merge(a.drop_last(), b, e, kind);
            assert(merge_stable(a.drop_last(), b, kind) == a.drop_last());
        } else {
            assert(merge_stable(a, grown.drop_last(), kind) == a);
        }
    } else {
        let x = a.last();
        let y = b.last();
        lemma_precedes_chain(kind, e.0, y.0, x.0);
        lemma_precedes_chain(kind, y.0, e.0, x.0);
        lemma_precedes_chain(kind, x.0, y.0, e.0);
        if precedes(kind, e.0, y.0) {
            assert(grown.last() == y);
            assert(grown.drop_last() =~= insert_stable(b.drop_last(), e, kind));
            if precedes(kind, y.0, x.0) {
                assert(merged.last() == x);
                assert(merged.drop_last() =~= merge_stable(a.drop_last(), b, kind));
                lemma_insert_merge(a.drop_last(), b, e, kind);
            } else {
                assert(merged.last() == y);
                assert(merged.drop_last() =~= merge_stable(a, b.drop_last(), kind));
                lemma_insert_merge(a, b.drop_last(), e, kind);
            }
        } else {
            assert(grown == b.push(e));
            assert(grown.last() == e);
            assert(grown.drop_last() =~= b);
            if precedes(kind, e.0, x.0) {
                assert(precedes(kind, y.0, x.0));
                assert(merged.last() == x);
                assert(merged.drop_last() =~= merge_stable(a.drop_last(), b, kind));
                lemma_insert_merge(a.drop_last(), b, e, kind);
            } else {
                assert(merged.last() == x || merged.last() == y);
            }
        }
    }
}

/// Sorting a concatenation is merging the sorted parts.
pub proof fn lemma_sort_concat(a: Seq<Tagged>, b: Seq<Tagged>, kind: SortKind)
    ensures
        stable_sort(a + b, kind) == merge_stable(stable_sort(a, kind), stable_sort(b, kind), kind),
    decreases b.len(),
{
    if b.len() == 0 {
        assert(a + b =~= a);
        lemma_sort_len(a, kind);
    } else {
        assert((a + b).drop_last() =~= a + b.drop_last());
        assert((a + b).last() == b.last());
        lemma_sort_concat(a, b.drop_last(), kind);
        lemma_insert_merge(
            stable_sort(a, kind),
            stable_sort(b.drop_last(), kind),
            b.last(),
            kind,
        );
    }
}

/// Where `insert_stable` puts the new entry: behind every entry but those that it has to
/// come before, which are the ones at the end.
pub open spec fn insert_position(s: Seq<Tagged>, e: Tagged, kind: SortKind) -> int
    decreases s.len(),
{
    if s.len() > 0 && precedes(kind, e.0, s.last().0) {
        insert_position(s.drop_last(), e, kind)
    } else {
        s.len() as int
    }
}

/// `insert_stable` is an insertion at `insert_position`.
pub proof fn lemma_insert_position(s: Seq<Tagged>, e: Tagged, kind: SortKind)
    ensures
        0 <= insert_position(s, e, kind) <= s.len(),
        insert_stable(s, e, kind) == s.insert(insert_position(s, e, kind), e),
        forall|k: int|
            insert_position(s, e, kind) <= k < s.len() ==> precedes(kind, e.0, (#[trigger] s[k]).0),
        insert_position(s, e, kind) > 0 ==> !precedes(
            kind,
            e.0,
            s[insert_position(s, e, kind) - 1].0,
        ),
    decreases s.len(),
{
    if s.len() > 0 && precedes(kind, e.0, s.last().0) {
        let front = s.drop_last();
        lemma_insert_position(front, e, kind);
        let p = insert_position(front, e, kind);
        assert(front.insert(p, e).push(s.last()) =~= s.insert(p, e));
        assert forall|k: int| p <= k < s.len() implies precedes(kind, e.0, (#[trigger] s[k]).0) by {
            if k < front.len() {
                assert(front[k] == s[k]);
            }
        }
        assert(p > 0 ==> front[p - 1] == s[p - 1]);
    } else {
        assert(s.push(e) =~= s.insert(s.len() as int, e));
    }
}

/// Sorting permutes: the result holds every entry as often as the input does.
pub proof fn lemma_sort_multiset(s: Seq<Tagged>, kind: SortKind)
    ensures
        stable_sort(s, kind).to_multiset() == s.to_multiset(),
    decreases s.len(),
{
    if s.len() > 0 {
        let front = s.drop_last();
        let sorted = stable_sort(front, kind);
        lemma_sort_multiset(front, kind);
        lemma_insert_position(sorted, s.last(), kind);
        vstd::seq_lib::to_multiset_insert(sorted, insert_position(sorted, s.last(), kind), s.last());
        vstd::seq_lib::to_multiset_build(front, s.last());
        assert(front.push(s.last()) =~= s);
    }
}

/// The entries of the result are the entries of the input.
pub proof fn lemma_sort_contains(s: Seq<Tagged>, kind: SortKind, e: Tagged)
    ensures
        stable_sort(s, kind).contains(e) <==> s.contains(e),
{
    lemma_sort_multiset(s, kind);
    vstd::seq_lib::to_multiset_contains(s, e);
    vstd::seq_lib::to_multiset_contains(stable_sort(s, kind), e);
}

/// The result is in order.
pub proof fn lemma_sort_ordered(s: Seq<Tagged>, kind: SortKind)
    ensures
        ordered(stable_sort(s, kind), kind),
    decreases s.len(),
{
    if s.len() > 0 {
        let sorted = stable_sort(s.drop_last(), kind);
        let e = s.last();
        lemma_sort_ordered(s.drop_last(), kind);
        lemma_insert_position(sorted, e, kind);
        let p = insert_position(sorted, e, kind);
        let grown = sorted.insert(p, e);
        assert forall|i: int, j: int| 0 <= i < j < grown.len() implies !precedes(
            kind,
            #[trigger] grown[j].0,
            #[trigger] grown[i].0,
        ) by {
            if i == p {
                assert(grown[j] == sorted[j - 1]);
                lemma_precedes_chain(kind, e.0, sorted[j - 1].0, e.0);
            } else if j == p {
                assert(grown[i] == sorted[i]);
                if i < p - 1 {
                    assert(!precedes(kind, sorted[p - 1].0, sorted[i].0));
                }
                lemma_precedes_chain(kind, sorted[i].0, sorted[p - 1].0, e.0);
            } else {
                let u = if i < p { i } else { i - 1 };
                let v = if j < p { j } else { j - 1 };
                assert(grown[i] == sorted[u] && grown[j] == sorted[v]);
                assert(!precedes(kind, sorted[v].0, sorted[u].0));
            }
        }
    }
}

/// Sorting what is in order already changes nothing.
pub proof fn lemma_sort_fixed(s: Seq<Tagged>, kind: SortKind)
    requires
        ordered(s, kind),
    ensures
        stable_sort(s, kind) == s,
    decreases s.len(),
{
    if s.len() > 0 {
        let front = s.drop_last();
        assert forall|i: int, j: int| 0 <= i < j < front.len() implies !precedes(
            kind,
            #[trigger] front[j].0,
            #[trigger] front[i].0,
        ) by {
            assert(front[i] == s[i] && front[j] == s[j]);
        }
        lemma_sort_fixed(front, kind);
        if front.len() > 0 {
            assert(front.last() == s[s.len() - 2]);
            assert(!precedes(kind, s[s.len() - 1].0, s[s.len() - 2].0));
        }
        assert(front.push(s.last()) =~= s);
    }
}

/// No two entries of `s` have level scalars.
pub open spec fn all_apart(s: Seq<Tagged>) -> bool {
    forall|i: int, j: int| 0 <= i < j < s.len() ==> !(#[trigger] s[i]).0.level((#[trigger] s[j]).0)
}

/// Sorting entries whose scalars are all apart gives entries whose scalars are all apart.
pub proof fn lemma_sort_apart(s: Seq<Tagged>, kind: SortKind)
    requires
        all_apart(s),
    ensures
        all_apart(stable_sort(s, kind)),
    decreases s.len(),
{
    if s.len() > 0 {
        let front = s.drop_last();
        let sorted = stable_sort(front, kind);
        let e = s.last();
        assert forall|i: int, j: int| 0 <= i < j < front.len() implies !(#[trigger] front[i]).0.level(
            (#[trigger] front[j]).0,
        ) by {
            assert(front[i] == s[i] && front[j] == s[j]);
        }
        lemma_sort_apart(front, kind);
        lemma_insert_position(sorted, e, kind);
        let p = insert_position(sorted, e, kind);
        let grown = sorted.insert(p, e);
        assert forall|k: int| 0 <= k < sorted.len() implies !(#[trigger] sorted[k]).0.level(e.0) by {
            lemma_sort_contains(front, kind, sorted[k]);
            assert(sorted.contains(sorted[k]));
            let u = choose|u: int| 0 <= u < front.len() && front[u] == sorted[k];
            assert(front[u] == s[u]);
            assert(!s[u].0.level(s[s.len() - 1].0));
        }
        assert forall|i: int, j: int| 0 <= i < j < grown.len() implies !(#[trigger] grown[i]).0.level(
            (#[trigger] grown[j]).0,
        ) by {
            if i == p {
                assert(grown[j] == sorted[j - 1]);
            } else if j == p {
                assert(grown[i] == sorted[i]);
            } else {
                let u = if i < p { i } else { i - 1 };
                let v = if j < p { j } else { j - 1 };
                assert(grown[i] == sorted[u] && grown[j] == sorted[v]);
                assert(!sorted[u].0.level(sorted[v].0));
            }
        }
    }
}

/// Without ties the order is strict: where no two scalars are level, each entry of the
/// result has to come before every later one.
pub proof fn lemma_sort_strict(s: Seq<Tagged>, kind: SortKind, i: int, j: int)
    requires
        all_apart(s),
        0 <= i < j < s.len(),
    ensures
        stable_sort(s, kind).len() == s.len(),
        precedes(kind, stable_sort(s, kind)[i].0, stable_sort(s, kind)[j].0),
{
    let sorted = stable_sort(s, kind);
    lemma_sort_len(s, kind);
    lemma_sort_apart(s, kind);
    lemma_sort_ordered(s, kind);
    assert(!sorted[i].0.level(sorted[j].0));
    assert(!precedes(kind, sorted[j].0, sorted[i].0));
}

/// The test "is level with `v`" on tagged pixels.
pub open spec fn level_with(v: Scalar) -> spec_fn(Tagged) -> bool {
    |t: Tagged| t.0.level(v)
}

proof fn lemma_insert_filter(s: Seq<Tagged>, e: Tagged, kind: SortKind, v: Scalar)
    ensures
        insert_stable(s, e, kind).filter(level_with(v)) == if e.0.level(v) {
            s.filter(level_with(v)).push(e)
        } else {
            s.filter(level_with(v))
        },
    decreases s.len(),
{
    reveal(Seq::filter);
    let keep = level_with(v);
    if s.len() > 0 && precedes(kind, e.0, s.last().0) {
        let front = s.drop_last();
        let grown = insert_stable(front, e, kind).push(s.last());
        lemma_insert_filter(front, e, kind, v);
        assert(grown.drop_last() =~= insert_stable(front, e, kind));
        assert(grown.last() == s.last());
        if e.0.level(v) && s.last().0.level(v) {
            lemma_level_transitive(e.0, v, s.last().0);
        }
    } else {
        assert(s.push(e).drop_last() =~= s);
        assert(s.push(e).last() == e);
    }
}

/// Stability: the entries level with any one scalar come out in the order they went in.
pub proof fn lemma_sort_stable(s: Seq<Tagged>, kind: SortKind, v: Scalar)
    ensures
        stable_sort(s, kind).filter(level_with(v)) == s.filter(level_with(v)),
    decreases s.len(),
{
    reveal(Seq::filter);
    if s.len() > 0 {
        lemma_sort_stable(s.drop_last(), kind, v);
        lemma_insert_filter(stable_sort(s.drop_last(), kind), s.last(), kind, v);
    }
}

/// Decides [`precedes`].
pub fn comes_before(kind: SortKind, a: &Scalar, b: &Scalar) -> (before: bool)
    ensures
        before == precedes(kind, *a, *b),
{
    match kind {
        SortKind::LeftToRight => a.less_than(b),
        SortKind::RightToLeft => b.less_than(a),
    }
}

/// Merges two sequences from their ends towards their starts.
fn merge(a: &Vec<Tagged>, b: &Vec<Tagged>, kind: SortKind) -> (out: Vec<Tagged>)
    requires
        a.len() + b.len() <= usize::MAX,
    ensures
        out@ == merge_stable(a@, b@, kind),
{
    let n: usize = a.len() + b.len();
    let filler: Tagged = (Scalar { num: 0, den: 1 }, Rgba8 { r: 0, g: 0, b: 0, a: 0 });
    let mut out: Vec<Tagged> = Vec::with_capacity(n);
    while out.len() < n
        invariant
            out.len() <= n,
        decreases n - out.len(),
    {
        out.push(filler);
    }
    let mut i: usize = a.len();
    let mut j: usize = b.len();
    let mut k: usize = n;
    assert(a@.take(i as int) =~= a@ && b@.take(j as int) =~= b@);
    assert(merge_stable(a@, b@, kind) =~= merge_stable(a@, b@, kind) + out@.skip(k as int));
    while k > 0
        invariant
            i <= a.len(),
            j <= b.len(),
            k == i + j,
            out.len() == n,
            n == a.len() + b.len(),
            merge_stable(a@, b@, kind) == merge_stable(a@.take(i as int), b@.take(j as int), kind)
                + out@.skip(k as int),
        decreases k,
    {
        let ghost head = a@.take(i as int);
        let ghost tail = b@.take(j as int);
        let ghost done = out@.skip(k as int);
        let from_a = if i == 0 {
            false
        } else if j == 0 {
            true
        } else {
            comes_before(kind, &b[j - 1].0, &a[i - 1].0)
        };
        if from_a {
            out[k - 1] = a[i - 1];
            i -= 1;
            proof {
                assert(head.drop_last() =~= a@.take(i as int));
                assert(merge_stable(head, tail, kind) == merge_stable(
                    head.drop_last(),
                    tail,
                    kind,
                ).push(head.last()));
            }
        } else {
            out[k - 1] = b[j - 1];
            j -= 1;
            proof {
                assert(tail.drop_last() =~= b@.take(j as int));
                assert(merge_stable(head, tail, kind) == merge_stable(
                    head,
                    tail.drop_last(),
                    kind,
                ).push(tail.last()));
            }
        }
        k -= 1;
        proof {
            let rest = merge_stable(a@.take(i as int), b@.take(j as int), kind);
            assert(rest.push(out@[k as int]) + done =~= rest + out@.skip(k as int));
        }
    }
    assert(out@.skip(0) =~= out@);
    assert(merge_stable(a@.take(0), b@.take(0), kind) + out@ =~= out@);
    out
}

/// Merge sort of `v[lo..hi]` into a fresh vector.
fn sort_range(v: &Vec<Tagged>, lo: usize, hi: usize, kind: SortKind) -> (out: Vec<Tagged>)
    requires
        lo <= hi <= v.len(),
    ensures
        out@ == stable_sort(v@.subrange(lo as int, hi as int), kind),
    decreases hi - lo,
{
    let ghost whole = v@.subrange(lo as int, hi as int);
    if hi - lo == 0 {
        Vec::new()
    } else if hi - lo == 1 {
        let mut out: Vec<Tagged> = Vec::with_capacity(1);
        out.push(v[lo]);
        proof {
            assert(stable_sort(whole.drop_last(), kind) =~= Seq::<Tagged>::empty());
            assert(out@ =~= stable_sort(whole, kind));
        }
        out
    } else {
        let mid: usize = lo + (hi - lo) / 2;
        let left = sort_range(v, lo, mid, kind);
        let right = sort_range(v, mid, hi, kind);
        proof {
            let front = v@.subrange(lo as int, mid as int);
            let back = v@.subrange(mid as int, hi as int);
            assert(whole =~= front + back);
            lemma_sort_concat(front, back, kind);
            lemma_sort_len(front, kind);
            lemma_sort_len(back, kind);
        }
        merge(&left, &right, kind)
    }
}

/// Sorts scalar-tagged pixels in place, stably.
///
/// Ascending for `LeftToRight`, descending for `RightToLeft`; in either order entries
/// whose scalars are level keep the order they came in.
pub fn sort_tagged(pxs: &mut Vec<Tagged>, kind: SortKind)
    ensures
        final(pxs)@ == stable_sort(old(pxs)@, kind),
{
    let sorted = sort_range(pxs, 0, pxs.len(), kind);
    assert(pxs@.subrange(0, pxs.len() as int) =~= pxs@);
    *pxs = sorted;
}

} // verus!
