//! One scan line: its runs, and what sorting does to it.

use vstd::prelude::*;
use crate::color_helpers::{in_gate, scalar_of};
use crate::effects::order::{
    all_apart,
    insert_position,
    lemma_insert_position,
    lemma_sort_contains,
    lemma_sort_fixed,
    lemma_sort_len,
    lemma_sort_ordered,
    lemma_sort_stable,
    lemma_sort_strict,
    level_with,
    precedes,
    stable_sort,
    Tagged,
};
use crate::options::{SortKind, SortMethod, Threshold};
use crate::pixel::Rgba8;
use crate::scalar::Scalar;

verus! {

/// Each pixel of `line` with its scalar.
pub open spec fn tagged(line: Seq<Rgba8>, method: SortMethod) -> Seq<Tagged> {
    Seq::new(line.len(), |i: int| (scalar_of(method, line[i]), line[i]))
}

/// The pixels of a tagged sequence.
pub open spec fn untagged(s: Seq<Tagged>) -> Seq<Rgba8> {
    Seq::new(s.len(), |i: int| s[i].1)
}

/// `[a, b)` is a run of `line`: a stretch of pixels inside the band that cannot be
/// extended on either side.
pub open spec fn is_run(line: Seq<Rgba8>, gate: Threshold, a: int, b: int) -> bool {
    &&& 0 <= a < b <= line.len()
    &&& forall|i: int| a <= i < b ==> in_gate(gate, #[trigger] line[i])
    &&& (a == 0 || !in_gate(gate, line[a - 1]))
    &&& (b == line.len() || !in_gate(gate, line[b]))
}

/// First position of the run that holds position `i`.
pub open spec fn run_start(line: Seq<Rgba8>, gate: Threshold, i: int) -> int
    decreases i,
{
    if 0 < i <= line.len() && in_gate(gate, line[i - 1]) {
        run_start(line, gate, i - 1)
    } else {
        i
    }
}

/// One past the last position of the run that holds position `i`.
pub open spec fn run_end(line: Seq<Rgba8>, gate: Threshold, i: int) -> int
    decreases line.len() - i,
{
    if 0 <= i + 1 < line.len() && in_gate(gate, line[i + 1]) {
        run_end(line, gate, i + 1)
    } else {
        i + 1
    }
}

/// The run `[a, b)` of `line`, sorted.
pub open spec fn sorted_run(
    line: Seq<Rgba8>,
    kind: SortKind,
    method: SortMethod,
    a: int,
    b: int,
) -> Seq<Rgba8> {
    untagged(stable_sort(tagged(line.subrange(a, b), method), kind))
}

/// The pixel at position `i` once the line is sorted: the pixel itself outside the band,
/// else the one that the stable sort of its run puts there.
pub open spec fn sorted_at(
    line: Seq<Rgba8>,
    gate: Threshold,
    kind: SortKind,
    method: SortMethod,
    i: int,
) -> Rgba8 {
    if in_gate(gate, line[i]) {
        let a = run_start(line, gate, i);
        let b = run_end(line, gate, i);
        sorted_run(line, kind, method, a, b)[i - a]
    } else {
        line[i]
    }
}

/// A scan line with every run sorted in place.
pub open spec fn sorted_line(
    line: Seq<Rgba8>,
    gate: Threshold,
    kind: SortKind,
    method: SortMethod,
) -> Seq<Rgba8> {
    Seq::new(line.len(), |i: int| sorted_at(line, gate, kind, method, i))
}

/// Every position of a run has that run's bounds.
pub proof fn lemma_run_bounds(line: Seq<Rgba8>, gate: Threshold, a: int, b: int, i: int)
    requires
        is_run(line, gate, a, b),
        a <= i < b,
    ensures
        run_start(line, gate, i) == a,
        run_end(line, gate, i) == b,
{
    lemma_run_start(line, gate, a, b, i);
    lemma_run_end(line, gate, a, b, i);
}

proof fn lemma_run_start(line: Seq<Rgba8>, gate: Threshold, a: int, b: int, i: int)
    requires
        is_run(line, gate, a, b),
        a <= i < b,
    ensures
        run_start(line, gate, i) == a,
    decreases i - a,
{
    if i > a {
        lemma_run_start(line, gate, a, b, i - 1);
    }
}

proof fn lemma_run_end(line: Seq<Rgba8>, gate: Threshold, a: int, b: int, i: int)
    requires
        is_run(line, gate, a, b),
        a <= i < b,
    ensures
        run_end(line, gate, i) == b,
    decreases b - i,
{
    if i + 1 < b {
        lemma_run_end(line, gate, a, b, i + 1);
    }
}

/// Every position inside the band lies in a run, the one that `run_start` and `run_end`
/// delimit.
pub proof fn lemma_run_around(line: Seq<Rgba8>, gate: Threshold, i: int)
    requires
        0 <= i < line.len(),
        in_gate(gate, line[i]),
    ensures
        is_run(line, gate, run_start(line, gate, i), run_end(line, gate, i)),
        run_start(line, gate, i) <= i < run_end(line, gate, i),
{
    lemma_start_reaches(line, gate, i);
    lemma_end_reaches(line, gate, i);
}

proof fn lemma_start_reaches(line: Seq<Rgba8>, gate: Threshold, i: int)
    requires
        0 <= i < line.len(),
        in_gate(gate, line[i]),
    ensures
        0 <= run_start(line, gate, i) <= i,
        forall|k: int| run_start(line, gate, i) <= k <= i ==> in_gate(gate, #[trigger] line[k]),
        run_start(line, gate, i) == 0 || !in_gate(gate, line[run_start(line, gate, i) - 1]),
    decreases i,
{
    if i > 0 && in_gate(gate, line[i - 1]) {
        lemma_start_reaches(line, gate, i - 1);
    }
}

proof fn lemma_end_reaches(line: Seq<Rgba8>, gate: Threshold, i: int)
    requires
        0 <= i < line.len(),
        in_gate(gate, line[i]),
    ensures
        i < run_end(line, gate, i) <= line.len(),
        forall|k: int| i <= k < run_end(line, gate, i) ==> in_gate(gate, #[trigger] line[k]),
        run_end(line, gate, i) == line.len() || !in_gate(gate, line[run_end(line, gate, i)]),
    decreases line.len() - i,
{
    if i + 1 < line.len() && in_gate(gate, line[i + 1]) {
        lemma_end_reaches(line, gate, i + 1);
    }
}

/// Every entry of a sorted run is a pixel of the run, still carrying its own scalar.
pub proof fn lemma_sorted_entry(s: Seq<Rgba8>, kind: SortKind, method: SortMethod, k: int)
    requires
        0 <= k < s.len(),
    ensures
        stable_sort(tagged(s, method), kind).len() == s.len(),
        stable_sort(tagged(s, method), kind)[k].0 == scalar_of(
            method,
            stable_sort(tagged(s, method), kind)[k].1,
        ),
        s.contains(stable_sort(tagged(s, method), kind)[k].1),
{
    let sorted = stable_sort(tagged(s, method), kind);
    lemma_sort_len(tagged(s, method), kind);
    lemma_sort_contains(tagged(s, method), kind, sorted[k]);
    assert(sorted.contains(sorted[k]));
    let u = choose|u: int| 0 <= u < s.len() && tagged(s, method)[u] == sorted[k];
    assert(s[u] == sorted[k].1);
}

/// A sorted line holds, over each run, the stable sort of that run.
pub proof fn lemma_sorted_line_run(
    line: Seq<Rgba8>,
    gate: Threshold,
    kind: SortKind,
    method: SortMethod,
    a: int,
    b: int,
)
    requires
        is_run(line, gate, a, b),
    ensures
        sorted_line(line, gate, kind, method).subrange(a, b) == sorted_run(
            line,
            kind,
            method,
            a,
            b,
        ),
{
    let out = sorted_line(line, gate, kind, method).subrange(a, b);
    let run = sorted_run(line, kind, method, a, b);
    lemma_sort_len(tagged(line.subrange(a, b), method), kind);
    assert forall|k: int| 0 <= k < b - a implies out[k] == run[k] by {
        lemma_run_bounds(line, gate, a, b, a + k);
        assert(in_gate(gate, line[a + k]));
    }
    assert(out =~= run);
}

/// Sorting moves no pixel across the edge of the band: a position holds a pixel inside
/// the band afterwards exactly if it did before.
pub proof fn lemma_gate_kept(
    line: Seq<Rgba8>,
    gate: Threshold,
    kind: SortKind,
    method: SortMethod,
    i: int,
)
    requires
        0 <= i < line.len(),
    ensures
        in_gate(gate, sorted_line(line, gate, kind, method)[i]) == in_gate(gate, line[i]),
{
    if in_gate(gate, line[i]) {
        lemma_run_around(line, gate, i);
        let a = run_start(line, gate, i);
        let b = run_end(line, gate, i);
        let run = line.subrange(a, b);
        lemma_sorted_entry(run, kind, method, i - a);
        let p = stable_sort(tagged(run, method), kind)[i - a].1;
        let u = choose|u: int| 0 <= u < run.len() && run[u] == p;
        assert(line[a + u] == p);
    }
}

/// Sorting a sorted line changes nothing.
pub proof fn lemma_line_idempotent(
    line: Seq<Rgba8>,
    gate: Threshold,
    kind: SortKind,
    method: SortMethod,
)
    ensures
        sorted_line(sorted_line(line, gate, kind, method), gate, kind, method) == sorted_line(
            line,
            gate,
            kind,
            method,
        ),
{
    let once = sorted_line(line, gate, kind, method);
    let twice = sorted_line(once, gate, kind, method);
    assert forall|i: int| 0 <= i < line.len() implies twice[i] == once[i] by {
        lemma_gate_kept(line, gate, kind, method, i);
        if in_gate(gate, line[i]) {
            lemma_run_around(line, gate, i);
            let a = run_start(line, gate, i);
            let b = run_end(line, gate, i);
            assert(is_run(once, gate, a, b)) by {
                assert forall|k: int| a <= k < b implies in_gate(gate, #[trigger] once[k]) by {
                    lemma_gate_kept(line, gate, kind, method, k);
                }
                if a > 0 {
                    lemma_gate_kept(line, gate, kind, method, a - 1);
                }
                if b < line.len() {
                    lemma_gate_kept(line, gate, kind, method, b);
                }
            }
            lemma_run_bounds(once, gate, a, b, i);
            lemma_sorted_line_run(line, gate, kind, method, a, b);
            let sorted = stable_sort(tagged(line.subrange(a, b), method), kind);
            assert(tagged(once.subrange(a, b), method) =~= sorted) by {
                assert forall|k: int| 0 <= k < b - a implies tagged(once.subrange(a, b), method)[k]
                    == sorted[k] by {
                    lemma_sorted_entry(line.subrange(a, b), kind, method, k);
                }
            }
            lemma_sort_ordered(tagged(line.subrange(a, b), method), kind);
            lemma_sort_fixed(sorted, kind);
        }
    }
    assert(twice =~= once);
}

/// Run conservation: over a run, the sorted line holds every pixel as often as the line
/// did.
pub proof fn lemma_line_run_multiset(
    line: Seq<Rgba8>,
    gate: Threshold,
    kind: SortKind,
    method: SortMethod,
    a: int,
    b: int,
)
    requires
        is_run(line, gate, a, b),
    ensures
        sorted_line(line, gate, kind, method).subrange(a, b).to_multiset() == line.subrange(
            a,
            b,
        ).to_multiset(),
{
    lemma_sorted_line_run(line, gate, kind, method, a, b);
    lemma_untagged_multiset(tagged(line.subrange(a, b), method), kind);
    assert(untagged(tagged(line.subrange(a, b), method)) =~= line.subrange(a, b));
}

proof fn lemma_untagged_multiset(s: Seq<Tagged>, kind: SortKind)
    ensures
        untagged(stable_sort(s, kind)).to_multiset() == untagged(s).to_multiset(),
    decreases s.len(),
{
    if s.len() > 0 {
        let front = s.drop_last();
        let sorted = stable_sort(front, kind);
        let e = s.last();
        lemma_untagged_multiset(front, kind);
        lemma_insert_position(sorted, e, kind);
        let p = insert_position(sorted, e, kind);
        assert(untagged(sorted.insert(p, e)) =~= untagged(sorted).insert(p, e.1));
        vstd::seq_lib::to_multiset_insert(untagged(sorted), p, e.1);
        assert(untagged(s) =~= untagged(front).push(e.1));
        vstd::seq_lib::to_multiset_build(untagged(front), e.1);
    } else {
        assert(untagged(stable_sort(s, kind)) =~= untagged(s));
    }
}

/// Order correctness: within a run of the sorted line, no pixel has to come before an
/// earlier one.
pub proof fn lemma_line_run_ordered(
    line: Seq<Rgba8>,
    gate: Threshold,
    kind: SortKind,
    method: SortMethod,
    a: int,
    b: int,
    i: int,
    j: int,
)
    requires
        is_run(line, gate, a, b),
        a <= i < j < b,
    ensures
        !precedes(
            kind,
            scalar_of(method, sorted_line(line, gate, kind, method)[j]),
            scalar_of(method, sorted_line(line, gate, kind, method)[i]),
        ),
{
    let run = line.subrange(a, b);
    let sorted = stable_sort(tagged(run, method), kind);
    lemma_sorted_line_run(line, gate, kind, method, a, b);
    let out = sorted_line(line, gate, kind, method);
    assert(out.subrange(a, b)[i - a] == out[i] && out.subrange(a, b)[j - a] == out[j]);
    lemma_sorted_entry(run, kind, method, i - a);
    lemma_sorted_entry(run, kind, method, j - a);
    lemma_sort_ordered(tagged(run, method), kind);
    assert(!precedes(kind, sorted[j - a].0, sorted[i - a].0));
}

/// Order correctness without ties: where no two pixels of a run have level scalars, each
/// pixel of the sorted run has to come before every later one.
pub proof fn lemma_line_run_strictly_ordered(
    line: Seq<Rgba8>,
    gate: Threshold,
    kind: SortKind,
    method: SortMethod,
    a: int,
    b: int,
    i: int,
    j: int,
)
    requires
        is_run(line, gate, a, b),
        a <= i < j < b,
        forall|u: int, v: int|
            a <= u < v < b ==> !scalar_of(method, #[trigger] line[u]).level(
                scalar_of(method, #[trigger] line[v]),
            ),
    ensures
        precedes(
            kind,
            scalar_of(method, sorted_line(line, gate, kind, method)[i]),
            scalar_of(method, sorted_line(line, gate, kind, method)[j]),
        ),
{
    let run = line.subrange(a, b);
    let out = sorted_line(line, gate, kind, method);
    lemma_sorted_line_run(line, gate, kind, method, a, b);
    assert(out.subrange(a, b)[i - a] == out[i] && out.subrange(a, b)[j - a] == out[j]);
    lemma_sorted_entry(run, kind, method, i - a);
    lemma_sorted_entry(run, kind, method, j - a);
    assert(all_apart(tagged(run, method))) by {
        assert forall|u: int, v: int| 0 <= u < v < run.len() implies !(#[trigger] tagged(
            run,
            method,
        )[u]).0.level((#[trigger] tagged(run, method)[v]).0) by {
            assert(run[u] == line[a + u] && run[v] == line[a + v]);
        }
    }
    lemma_sort_strict(tagged(run, method), kind, i - a, j - a);
}

/// The test "has a scalar level with `v`" on pixels.
pub open spec fn scalar_level_with(method: SortMethod, v: Scalar) -> spec_fn(Rgba8) -> bool {
    |p: Rgba8| scalar_of(method, p).level(v)
}

proof fn lemma_untagged_filter(s: Seq<Tagged>, method: SortMethod, v: Scalar)
    requires
        forall|k: int| 0 <= k < s.len() ==> (#[trigger] s[k]).0 == scalar_of(method, s[k].1),
    ensures
        untagged(s.filter(level_with(v))) == untagged(s).filter(scalar_level_with(method, v)),
    decreases s.len(),
{
    reveal(Seq::filter);
    if s.len() > 0 {
        let front = s.drop_last();
        assert forall|k: int| 0 <= k < front.len() implies (#[trigger] front[k]).0 == scalar_of(
            method,
            front[k].1,
        ) by {
            assert(front[k] == s[k]);
        }
        lemma_untagged_filter(front, method, v);
        assert(untagged(s).drop_last() =~= untagged(front));
        assert(untagged(s).last() == s.last().1);
        assert(s.last().0 == scalar_of(method, s.last().1));
        let kept = front.filter(level_with(v));
        if s.last().0.level(v) {
            assert(untagged(kept.push(s.last())) =~= untagged(kept).push(s.last().1));
        }
    } else {
        assert(untagged(s.filter(level_with(v))) =~= untagged(s).filter(
            scalar_level_with(method, v),
        ));
    }
}

/// Ties keep their order: among the pixels of a run whose scalars are level with any one
/// scalar, the sorted line has the order that the line had, ascending or descending.
pub proof fn lemma_line_run_stable(
    line: Seq<Rgba8>,
    gate: Threshold,
    kind: SortKind,
    method: SortMethod,
    a: int,
    b: int,
    v: Scalar,
)
    requires
        is_run(line, gate, a, b),
    ensures
        sorted_line(line, gate, kind, method).subrange(a, b).filter(
            scalar_level_with(method, v),
        ) == line.subrange(a, b).filter(scalar_level_with(method, v)),
{
    let run = line.subrange(a, b);
    let sorted = stable_sort(tagged(run, method), kind);
    lemma_sorted_line_run(line, gate, kind, method, a, b);
    assert forall|k: int| 0 <= k < sorted.len() implies (#[trigger] sorted[k]).0 == scalar_of(
        method,
        sorted[k].1,
    ) by {
        lemma_sort_len(tagged(run, method), kind);
        lemma_sorted_entry(run, kind, method, k);
    }
    lemma_untagged_filter(sorted, method, v);
    lemma_sort_stable(tagged(run, method), kind, v);
    lemma_untagged_filter(tagged(run, method), method, v);
    assert(untagged(tagged(run, method)) =~= run);
}

} // verus!
