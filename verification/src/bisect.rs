use std::collections::BTreeSet;

use vstd::prelude::*;

use crate::oracle::Classification;
use crate::state::{Evaluation, RunState};

verus! {

broadcast use vstd::laws_cmp::group_laws_cmp, vstd::std_specs::btree::axiom_set_contains_deref_key;

/// Why narrowing an interval failed.
#[derive(Clone, Copy, Debug, PartialEq, Eq, Structural)]
pub enum NarrowError {
    /// A good probe lies to the right of a bad one.
    Inconsistent,
}

// ---------------------------------------------------------------------------
// Probe placement

/// The untested commits strictly between `low` and `k`, in increasing order.
pub open spec fn untested_below(low: int, k: int, tested: Set<usize>) -> Seq<usize>
    decreases k - low,
{
    if k <= low + 1 {
        Seq::empty()
    } else {
        let rest = untested_below(low, k - 1, tested);
        if tested.contains((k - 1) as usize) {
            rest
        } else {
            rest.push((k - 1) as usize)
        }
    }
}

/// The untested commits strictly inside `(low, high)`.
pub open spec fn untested_interior(low: usize, high: usize, tested: Set<usize>) -> Seq<usize> {
    untested_below(low as int, high as int, tested)
}

/// The `p`-th of `count` evenly spaced points in `(low, low + span)`.
pub open spec fn target(low: int, span: int, count: int, p: int) -> int {
    low + p * span / (count + 1)
}

pub open spec fn distance(x: usize, t: int) -> int {
    if x >= t {
        x - t
    } else {
        t - x
    }
}

/// `a` is a better probe for target `t` than `b`: nearer, or as near and
/// smaller.
pub open spec fn prefers(a: usize, b: usize, t: int) -> bool {
    distance(a, t) < distance(b, t) || (distance(a, t) == distance(b, t) && a < b)
}

/// `i` indexes the best candidate for target `t`.
pub open spec fn is_nearest(candidates: Seq<usize>, t: int, i: int) -> bool {
    &&& 0 <= i < candidates.len()
    &&& forall|j: int|
        0 <= j < candidates.len() && j != i ==> !prefers(candidates[j], candidates[i], t)
}

pub open spec fn nearest(candidates: Seq<usize>, t: int) -> int {
    choose|i: int| is_nearest(candidates, t, i)
}

/// Greedy selection of probes `p..=count`: each target takes the nearest
/// candidate not yet taken.
pub open spec fn greedy_picks(
    candidates: Seq<usize>,
    low: int,
    span: int,
    count: int,
    p: int,
) -> Seq<usize>
    decreases count + 1 - p,
{
    if p > count || candidates.len() == 0 || p < 1 {
        Seq::empty()
    } else {
        let i = nearest(candidates, target(low, span, count, p));
        seq![candidates[i]] + greedy_picks(candidates.remove(i), low, span, count, p + 1)
    }
}

pub open spec fn min_usize(a: int, b: int) -> int {
    if a <= b {
        a
    } else {
        b
    }
}

/// The probes of one round: `min(jobs, untested)` evenly spaced targets, each
/// served by the nearest untested commit not yet chosen.
pub open spec fn probe_set(low: usize, high: usize, jobs: usize, tested: Set<usize>) -> Seq<usize> {
    let candidates = untested_interior(low, high, tested);
    let count = min_usize(jobs as int, candidates.len() as int);
    greedy_picks(candidates, low as int, high - low, count, 1)
}

pub open spec fn strictly_increasing(s: Seq<usize>) -> bool {
    forall|i: int, j: int| 0 <= i < j < s.len() ==> s[i] < s[j]
}

pub open spec fn distinct(s: Seq<usize>) -> bool {
    forall|i: int, j: int| 0 <= i < s.len() && 0 <= j < s.len() && i != j ==> s[i] != s[j]
}

proof fn lemma_untested_below(low: int, k: int, tested: Set<usize>)
    requires
        0 <= low,
        k <= usize::MAX,
    ensures
        strictly_increasing(untested_below(low, k, tested)),
        untested_below(low, k, tested).len() <= (if k > low + 1 { k - low - 1 } else { 0 }),
        tested == Set::<usize>::empty() && k > low + 1 ==> untested_below(low, k, tested).len() == k - low - 1,
        forall|x: usize| #[trigger]
            untested_below(low, k, tested).contains(x) <==> (low < x < k && !tested.contains(x)),
    decreases k - low,
{
    if k > low + 1 {
        lemma_untested_below(low, k - 1, tested);
        let rest = untested_below(low, k - 1, tested);
        if !tested.contains((k - 1) as usize) {
            let pushed = rest.push((k - 1) as usize);
            assert forall|x: usize| #[trigger]
                pushed.contains(x) <==> (low < x < k && !tested.contains(x)) by {
                if pushed.contains(x) {
                    let i = choose|i: int| 0 <= i < pushed.len() && pushed[i] == x;
                    if i < rest.len() {
                        assert(rest[i] == x);
                        assert(rest.contains(x));
                    }
                }
                if low < x < k && !tested.contains(x) && x != k - 1 {
                    assert(rest.contains(x));
                    let i = choose|i: int| 0 <= i < rest.len() && rest[i] == x;
                    assert(pushed[i] == x);
                }
                if x == k - 1 {
                    assert(pushed[rest.len() as int] == x);
                }
            }
            assert forall|i: int, j: int| 0 <= i < j < pushed.len() implies #[trigger] pushed[i] < #[trigger] pushed[j] by {
                if j == rest.len() {
                    assert(rest[i] == pushed[i]);
                    assert(rest.contains(rest[i]));
                } else {
                    assert(rest[i] == pushed[i]);
                    assert(rest[j] == pushed[j]);
                }
            }
        } else {
            assert forall|x: usize| #[trigger]
                rest.contains(x) <==> (low < x < k && !tested.contains(x)) by {}
        }
    } else {
        assert forall|x: usize| #[trigger]
            untested_below(low, k, tested).contains(x) <==> (low < x < k && !tested.contains(x)) by {}
    }
}

proof fn lemma_increasing_distinct(s: Seq<usize>)
    requires
        strictly_increasing(s),
    ensures
        distinct(s),
{
    assert forall|i: int, j: int| 0 <= i < s.len() && 0 <= j < s.len() && i != j implies s[i] != s[j] by {
        if i < j {
            assert(s[i] < s[j]);
        } else {
            assert(s[j] < s[i]);
        }
    }
}

proof fn lemma_remove_distinct(s: Seq<usize>, i: int)
    requires
        distinct(s),
        0 <= i < s.len(),
    ensures
        distinct(s.remove(i)),
        forall|x: usize| #[trigger] s.remove(i).contains(x) <==> (s.contains(x) && x != s[i]),
{
    let r = s.remove(i);
    assert forall|a: int, b: int| 0 <= a < r.len() && 0 <= b < r.len() && a != b implies r[a] != r[b] by {
        let oa = if a < i { a } else { a + 1 };
        let ob = if b < i { b } else { b + 1 };
        assert(r[a] == s[oa]);
        assert(r[b] == s[ob]);
    }
    assert forall|x: usize| #[trigger] r.contains(x) <==> (s.contains(x) && x != s[i]) by {
        if r.contains(x) {
            let a = choose|a: int| 0 <= a < r.len() && r[a] == x;
            let oa = if a < i { a } else { a + 1 };
            assert(r[a] == s[oa]);
            assert(s.contains(x));
        }
        if s.contains(x) && x != s[i] {
            let a = choose|a: int| 0 <= a < s.len() && s[a] == x;
            let ra = if a < i { a } else { a - 1 };
            assert(r[ra] == x);
        }
    }
}

proof fn lemma_nearest_unique(candidates: Seq<usize>, t: int, i: int)
    requires
        distinct(candidates),
        is_nearest(candidates, t, i),
    ensures
        nearest(candidates, t) == i,
{
    let j = nearest(candidates, t);
    assert(is_nearest(candidates, t, j));
    if j != i {
        assert(!prefers(candidates[j], candidates[i], t));
        assert(!prefers(candidates[i], candidates[j], t));
        assert(candidates[i] != candidates[j]);
    }
}

fn distance_to(x: usize, t: usize) -> (d: usize)
    ensures
        d == distance(x, t as int),
{
    if x >= t {
        x - t
    } else {
        t - x
    }
}

/// Places the probes of one k-section round inside `(low, high)`: up to
/// `jobs` evenly spaced targets, each served by the nearest untested commit
/// not already chosen, returned in increasing order.
pub fn probes(low: usize, high: usize, jobs: usize, tested: &BTreeSet<usize>) -> (selected: Vec<usize>)
    ensures
        strictly_increasing(selected@),
        forall|x: usize| #[trigger]
            selected@.contains(x) <==> probe_set(low, high, jobs, tested@).contains(x),
{
    let ghost tested_set = tested@;
    let mut available: Vec<usize> = Vec::new();
    if low >= high {
        return Vec::new();
    }
    let mut index: usize = low + 1;
    while index < high
        invariant
            low < high,
            low + 1 <= index <= high,
            tested@ == tested_set,
            available@ == untested_below(low as int, index as int, tested_set),
        decreases high - index,
    {
        if !tested.contains(&index) {
            available.push(index);
        }
        index = index + 1;
    }
    let ghost candidates = available@;
    proof {
        lemma_untested_below(low as int, high as int, tested_set);
        lemma_increasing_distinct(candidates);
    }
    let count = if jobs < available.len() {
        jobs
    } else {
        available.len()
    };
    if count == 0 {
        assert(probe_set(low, high, jobs, tested_set) =~= Seq::<usize>::empty());
        return Vec::new();
    }
    let span = high - low;
    let mut picked: Vec<usize> = Vec::new();
    let mut probe: usize = 1;
    while probe <= count
        invariant
            1 <= probe <= count + 1,
            count <= jobs,
            count <= candidates.len(),
            candidates.len() < high,
            count == min_usize(jobs as int, candidates.len() as int),
            span == high - low,
            low < high,
            distinct(available@),
            available@.len() == candidates.len() - (probe - 1),
            picked@ + greedy_picks(available@, low as int, span as int, count as int, probe as int)
                == greedy_picks(candidates, low as int, span as int, count as int, 1),
            distinct(picked@),
            forall|a: int, b: int|
                0 <= a < picked@.len() && 0 <= b < available@.len() ==> picked@[a] != available@[b],
        decreases count + 1 - probe,
    {
        proof {
            assert(probe as u128 * span as u128 <= count as u128 * span as u128) by (nonlinear_arith)
                requires probe <= count;
            assert(count as u128 * span as u128 <= usize::MAX as u128 * usize::MAX as u128) by (nonlinear_arith)
                requires count <= usize::MAX, span <= usize::MAX;
            assert(usize::MAX as u128 * usize::MAX as u128 <= u128::MAX) by (nonlinear_arith)
                requires usize::MAX <= u64::MAX;
        }
        let numerator: u128 = probe as u128 * span as u128;
        let offset: u128 = numerator / (count as u128 + 1);
        proof {
            assert(offset as int <= span as int) by (nonlinear_arith)
                requires offset as int == numerator as int / (count as int + 1), numerator as int == probe as int * span as int, probe <= count, count >= 1, span >= 0;
        }
        let target_value: usize = low + offset as usize;
        proof {
            assert(target_value as int == target(low as int, span as int, count as int, probe as int));
        }
        let mut best: usize = 0;
        let mut j: usize = 1;
        while j < available.len()
            invariant
                available@.len() >= 1,
                best < j <= available@.len(),
                forall|m: int| 0 <= m < j && m != best ==> !prefers(available@[m], available@[best as int], target_value as int),
            decreases available@.len() - j,
        {
            let dj = distance_to(available[j], target_value);
            let db = distance_to(available[best], target_value);
            if dj < db || (dj == db && available[j] < available[best]) {
                best = j;
            }
            j = j + 1;
        }
        proof {
            assert(is_nearest(available@, target_value as int, best as int));
            lemma_nearest_unique(available@, target_value as int, best as int);
            lemma_remove_distinct(available@, best as int);
        }
        let ghost before = available@;
        let ghost picked_before = picked@;
        let chosen = available.remove(best);
        picked.push(chosen);
        proof {
            assert(greedy_picks(before, low as int, span as int, count as int, probe as int)
                == seq![chosen] + greedy_picks(available@, low as int, span as int, count as int, probe + 1));
            assert(picked@ + greedy_picks(available@, low as int, span as int, count as int, probe + 1)
                =~= picked_before + greedy_picks(before, low as int, span as int, count as int, probe as int));
            assert forall|a: int, b: int| 0 <= a < picked@.len() && 0 <= b < picked@.len() && a != b implies picked@[a] != picked@[b] by {
                if a < picked_before.len() && b < picked_before.len() {
                } else if a < picked_before.len() {
                    assert(picked@[b] == before[best as int]);
                } else {
                    assert(picked@[a] == before[best as int]);
                }
            }
            assert forall|a: int, b: int| 0 <= a < picked@.len() && 0 <= b < available@.len() implies picked@[a] != available@[b] by {
                assert(available@.contains(available@[b]));
                if a < picked_before.len() {
                    assert(before.contains(available@[b]));
                    let bb = choose|bb: int| 0 <= bb < before.len() && before[bb] == available@[b];
                    assert(picked_before[a] != before[bb]);
                }
            }
        }
        probe = probe + 1;
    }
    assert(greedy_picks(available@, low as int, span as int, count as int, probe as int) =~= Seq::<usize>::empty());
    assert(picked@ =~= probe_set(low, high, jobs, tested_set));
    sort_distinct(&picked)
}

/// The elements of `values`, distinct by precondition, in increasing order.
fn sort_distinct(values: &Vec<usize>) -> (sorted: Vec<usize>)
    requires
        distinct(values@),
    ensures
        strictly_increasing(sorted@),
        forall|x: usize| #[trigger] sorted@.contains(x) <==> values@.contains(x),
{
    let mut sorted: Vec<usize> = Vec::new();
    let mut i: usize = 0;
    while i < values.len()
        invariant
            i <= values@.len(),
            distinct(values@),
            strictly_increasing(sorted@),
            forall|x: usize| #[trigger] sorted@.contains(x) <==> values@.subrange(0, i as int).contains(x),
        decreases values@.len() - i,
    {
        let x = values[i];
        let mut pos: usize = 0;
        while pos < sorted.len() && sorted[pos] < x
            invariant
                pos <= sorted@.len(),
                forall|k: int| 0 <= k < pos ==> sorted@[k] < x,
            decreases sorted@.len() - pos,
        {
            pos = pos + 1;
        }
        proof {
            let prefix = values@.subrange(0, i as int);
            if sorted@.contains(x) {
                assert(prefix.contains(x));
                let m = choose|m: int| 0 <= m < prefix.len() && prefix[m] == x;
                assert(values@[m] == values@[i as int]);
            }
        }
        let ghost old_sorted = sorted@;
        sorted.insert(pos, x);
        proof {
            assert forall|a: int, b: int| 0 <= a < b < sorted@.len() implies sorted@[a] < sorted@[b] by {
                if b < pos {
                } else if b == pos {
                    assert(sorted@[a] == old_sorted[a]);
                } else if a < pos {
                    assert(sorted@[b] == old_sorted[b - 1]);
                    if b - 1 > pos {
                        assert(old_sorted[pos as int] < old_sorted[b - 1]);
                    }
                    if pos < old_sorted.len() {
                        assert(!(old_sorted[pos as int] < x));
                        assert(old_sorted[pos as int] != x) by {
                            assert(old_sorted.contains(old_sorted[pos as int]));
                        }
                    }
                } else if a == pos {
                    assert(sorted@[b] == old_sorted[b - 1]);
                    assert(!(old_sorted[pos as int] < x));
                    assert(old_sorted.contains(old_sorted[pos as int]));
                    if b - 1 > pos {
                        assert(old_sorted[pos as int] < old_sorted[b - 1]);
                    }
                } else {
                    assert(sorted@[a] == old_sorted[a - 1]);
                    assert(sorted@[b] == old_sorted[b - 1]);
                }
            }
            let prefix = values@.subrange(0, i as int);
            let next = values@.subrange(0, i + 1);
            assert(next =~= prefix.push(x));
            assert forall|y: usize| #[trigger] sorted@.contains(y) <==> next.contains(y) by {
                if sorted@.contains(y) {
                    let k = choose|k: int| 0 <= k < sorted@.len() && sorted@[k] == y;
                    if k < pos {
                        assert(old_sorted[k] == y);
                        assert(old_sorted.contains(y));
                    } else if k > pos {
                        assert(old_sorted[k - 1] == y);
                        assert(old_sorted.contains(y));
                    }
                    if y != x {
                        assert(prefix.contains(y));
                        let m = choose|m: int| 0 <= m < prefix.len() && prefix[m] == y;
                        assert(next[m] == y);
                    } else {
                        assert(next[i as int] == y);
                    }
                }
                if next.contains(y) {
                    let m = choose|m: int| 0 <= m < next.len() && next[m] == y;
                    if m < i {
                        assert(prefix[m] == y);
                        assert(prefix.contains(y));
                        assert(old_sorted.contains(y));
                        let k = choose|k: int| 0 <= k < old_sorted.len() && old_sorted[k] == y;
                        if k < pos {
                            assert(sorted@[k] == y);
                        } else {
                            assert(sorted@[k + 1] == y);
                        }
                    } else {
                        assert(sorted@[pos as int] == y);
                    }
                }
            }
        }
        i = i + 1;
    }
    assert(values@.subrange(0, values@.len() as int) =~= values@);
    sorted
}



/// A round has no probe exactly when there is no worker or every commit
/// inside the interval has been evaluated already.
pub proof fn lemma_no_probes_when_exhausted(low: usize, high: usize, jobs: usize, tested: Set<usize>)
    ensures
        (probe_set(low, high, jobs, tested).len() == 0) == (jobs == 0 || untested_interior(low, high, tested).len() == 0),
{
    let candidates = untested_interior(low, high, tested);
    let count = min_usize(jobs as int, candidates.len() as int);
    if !(1 > count || candidates.len() == 0) {
        let i = nearest(candidates, target(low as int, high - low, count, 1));
        assert(probe_set(low, high, jobs, tested) == seq![candidates[i]] + greedy_picks(
            candidates.remove(i),
            low as int,
            high - low,
            count,
            2,
        ));
    }
}

/// The probes lie strictly inside the interval.
pub proof fn lemma_probe_set_interior(low: usize, high: usize, jobs: usize, tested: Set<usize>)
    ensures
        forall|x: usize| #[trigger] probe_set(low, high, jobs, tested).contains(x) ==> low < x < high,
{
    let candidates = untested_interior(low, high, tested);
    lemma_untested_below(low as int, high as int, tested);
    lemma_increasing_distinct(candidates);
    let count = min_usize(jobs as int, candidates.len() as int);
    lemma_greedy_subset(candidates, low as int, high - low, count, 1);
}

proof fn lemma_greedy_subset(candidates: Seq<usize>, low: int, span: int, count: int, p: int)
    requires
        distinct(candidates),
    ensures
        forall|x: usize| #[trigger] greedy_picks(candidates, low, span, count, p).contains(x) ==> candidates.contains(x),
    decreases count + 1 - p,
{
    if !(p > count || candidates.len() == 0 || p < 1) {
        let i = nearest(candidates, target(low, span, count, p));
        let picks = greedy_picks(candidates, low, span, count, p);
        let t = target(low, span, count, p);
        // a nearest index exists: the smallest by preference
        lemma_nearest_exists(candidates, t);
        lemma_remove_distinct(candidates, i);
        let rest = candidates.remove(i);
        lemma_greedy_subset(rest, low, span, count, p + 1);
        let tail = greedy_picks(rest, low, span, count, p + 1);
        assert(picks == seq![candidates[i]] + tail);
        assert forall|x: usize| #[trigger] picks.contains(x) implies candidates.contains(x) by {
            let k = choose|k: int| 0 <= k < picks.len() && picks[k] == x;
            if k > 0 {
                assert(tail[k - 1] == x);
                assert(tail.contains(x));
            }
        }
    }
}

proof fn lemma_nearest_exists(candidates: Seq<usize>, t: int)
    requires
        candidates.len() > 0,
        distinct(candidates),
    ensures
        is_nearest(candidates, t, nearest(candidates, t)),
    decreases candidates.len(),
{
    let best = best_index(candidates, t, candidates.len() as int);
    lemma_best_index(candidates, t, candidates.len() as int);
    assert(is_nearest(candidates, t, best));
}

spec fn best_index(candidates: Seq<usize>, t: int, k: int) -> int
    decreases k,
{
    if k <= 1 {
        0
    } else {
        let b = best_index(candidates, t, k - 1);
        if prefers(candidates[k - 1], candidates[b], t) {
            k - 1
        } else {
            b
        }
    }
}

proof fn lemma_best_index(candidates: Seq<usize>, t: int, k: int)
    requires
        1 <= k <= candidates.len(),
    ensures
        0 <= best_index(candidates, t, k) < k,
        forall|j: int| 0 <= j < k && j != best_index(candidates, t, k) ==> !prefers(candidates[j], candidates[best_index(candidates, t, k)], t),
    decreases k,
{
    if k > 1 {
        lemma_best_index(candidates, t, k - 1);
        let b = best_index(candidates, t, k - 1);
        let nb = best_index(candidates, t, k);
        assert forall|j: int| 0 <= j < k && j != nb implies !prefers(candidates[j], candidates[nb], t) by {
            if nb == k - 1 {
                if j != b {
                    assert(!prefers(candidates[j], candidates[b], t));
                }
            }
        }
    }
}

// ---------------------------------------------------------------------------
// Interval narrowing

/// Some entry of `entries` carries classification `c`.
pub open spec fn has_class(entries: Seq<(usize, Classification)>, c: Classification) -> bool {
    exists|i: int| 0 <= i < entries.len() && (#[trigger] entries[i]).1 == c
}

/// `b` is the smallest index classified bad.
pub open spec fn is_leftmost_bad(entries: Seq<(usize, Classification)>, b: usize) -> bool {
    &&& exists|i: int| 0 <= i < entries.len() && (#[trigger] entries[i]) == (b, Classification::Bad)
    &&& forall|j: int|
        0 <= j < entries.len() && (#[trigger] entries[j]).1 == Classification::Bad ==> b <= entries[j].0
}

/// Some entry below `bound` is classified good.
pub open spec fn has_good_below(entries: Seq<(usize, Classification)>, bound: usize) -> bool {
    exists|i: int|
        0 <= i < entries.len() && (#[trigger] entries[i]).1 == Classification::Good && entries[i].0 < bound
}

/// `g` is the largest index below `bound` classified good.
pub open spec fn is_rightmost_good_below(
    entries: Seq<(usize, Classification)>,
    bound: usize,
    g: usize,
) -> bool {
    &&& g < bound
    &&& exists|i: int| 0 <= i < entries.len() && (#[trigger] entries[i]) == (g, Classification::Good)
    &&& forall|j: int|
        0 <= j < entries.len() && (#[trigger] entries[j]).1 == Classification::Good && entries[j].0
            < bound ==> entries[j].0 <= g
}

/// The new upper bound: the leftmost bad index, or `high` if none is bad.
pub open spec fn leftmost_bad(entries: Seq<(usize, Classification)>, high: usize) -> usize {
    if has_class(entries, Classification::Bad) {
        choose|b: usize| is_leftmost_bad(entries, b)
    } else {
        high
    }
}

/// The new lower bound: the rightmost good index below `bound`, or `low`.
pub open spec fn rightmost_good_below(
    entries: Seq<(usize, Classification)>,
    bound: usize,
    low: usize,
) -> usize {
    if has_good_below(entries, bound) {
        choose|g: usize| is_rightmost_good_below(entries, bound, g)
    } else {
        low
    }
}

/// The interval after a round: (rightmost good left of the leftmost bad,
/// leftmost bad].
pub open spec fn narrowed(low: usize, high: usize, entries: Seq<(usize, Classification)>) -> (
    usize,
    usize,
) {
    let h = leftmost_bad(entries, high);
    (rightmost_good_below(entries, h, low), h)
}

/// A good result lies to the right of a bad one.
pub open spec fn non_monotone(entries: Seq<(usize, Classification)>) -> bool {
    exists|i: int, j: int|
        0 <= i < entries.len() && 0 <= j < entries.len() && (#[trigger] entries[i]).1
            == Classification::Bad && (#[trigger] entries[j]).1 == Classification::Good
            && entries[j].0 > entries[i].0
}

fn leftmost_bad_index(entries: &[(usize, Classification)]) -> (found: Option<usize>)
    ensures
        match found {
            Some(b) => has_class(entries@, Classification::Bad) && is_leftmost_bad(entries@, b),
            None => !has_class(entries@, Classification::Bad),
        },
{
    let mut found: Option<usize> = None;
    let mut i: usize = 0;
    while i < entries.len()
        invariant
            i <= entries@.len(),
            match found {
                Some(b) => (exists|k: int| 0 <= k < i && (#[trigger] entries@[k]) == (b, Classification::Bad))
                    && forall|k: int| 0 <= k < i && (#[trigger] entries@[k]).1 == Classification::Bad ==> b <= entries@[k].0,
                None => forall|k: int| 0 <= k < i ==> (#[trigger] entries@[k]).1 != Classification::Bad,
            },
        decreases entries@.len() - i,
    {
        let (index, class) = entries[i];
        if class == Classification::Bad {
            match found {
                Some(b) => {
                    if index < b {
                        found = Some(index);
                    }
                },
                None => {
                    found = Some(index);
                },
            }
        }
        i = i + 1;
    }
    found
}

fn rightmost_good_index_below(entries: &[(usize, Classification)], bound: usize) -> (found: Option<usize>)
    ensures
        match found {
            Some(g) => has_good_below(entries@, bound) && is_rightmost_good_below(entries@, bound, g),
            None => !has_good_below(entries@, bound),
        },
{
    let mut found: Option<usize> = None;
    let mut i: usize = 0;
    while i < entries.len()
        invariant
            i <= entries@.len(),
            match found {
                Some(g) => g < bound && (exists|k: int| 0 <= k < i && (#[trigger] entries@[k]) == (g, Classification::Good))
                    && forall|k: int| 0 <= k < i && (#[trigger] entries@[k]).1 == Classification::Good && entries@[k].0 < bound ==> entries@[k].0 <= g,
                None => forall|k: int| 0 <= k < i ==> !((#[trigger] entries@[k]).1 == Classification::Good && entries@[k].0 < bound),
            },
        decreases entries@.len() - i,
    {
        let (index, class) = entries[i];
        if class == Classification::Good && index < bound {
            match found {
                Some(g) => {
                    if index > g {
                        found = Some(index);
                    }
                },
                None => {
                    found = Some(index);
                },
            }
        }
        i = i + 1;
    }
    found
}

proof fn lemma_leftmost_unique(entries: Seq<(usize, Classification)>, b: usize)
    requires
        is_leftmost_bad(entries, b),
    ensures
        leftmost_bad(entries, 0) == b,
{
    let i = choose|i: int| 0 <= i < entries.len() && (#[trigger] entries[i]) == (b, Classification::Bad);
    assert(entries[i].1 == Classification::Bad);
    let c = choose|c: usize| is_leftmost_bad(entries, c);
    let k = choose|k: int| 0 <= k < entries.len() && (#[trigger] entries[k]) == (c, Classification::Bad);
    assert(entries[k].1 == Classification::Bad);
}

proof fn lemma_rightmost_unique(entries: Seq<(usize, Classification)>, bound: usize, g: usize)
    requires
        is_rightmost_good_below(entries, bound, g),
    ensures
        has_good_below(entries, bound),
        rightmost_good_below(entries, bound, 0) == g,
{
    let i = choose|i: int| 0 <= i < entries.len() && (#[trigger] entries[i]) == (g, Classification::Good);
    assert(entries[i].1 == Classification::Good);
    let c = choose|c: usize| is_rightmost_good_below(entries, bound, c);
    let k = choose|k: int| 0 <= k < entries.len() && (#[trigger] entries[k]) == (c, Classification::Good);
    assert(entries[k].1 == Classification::Good);
}


/// Only good and bad results carry information.
pub open spec fn uninformative(entries: Seq<(usize, Classification)>) -> bool {
    forall|i: int| 0 <= i < entries.len() ==> (#[trigger] entries[i]).1 != Classification::Good
        && entries[i].1 != Classification::Bad
}

/// Skipped (or aborted) probes do not move a boundary: adding such results
/// to a round leaves the narrowed interval as it was.
pub proof fn lemma_skips_do_not_move_bounds(
    low: usize,
    high: usize,
    entries: Seq<(usize, Classification)>,
    skipped: Seq<(usize, Classification)>,
)
    requires
        uninformative(skipped),
    ensures
        narrowed(low, high, entries + skipped) == narrowed(low, high, entries),
{
    let all = entries + skipped;
    assert forall|c: Classification| c == Classification::Good || c == Classification::Bad implies has_class(all, c)
        == has_class(entries, c) by {
        if has_class(all, c) {
            let i = choose|i: int| 0 <= i < all.len() && (#[trigger] all[i]).1 == c;
            if i >= entries.len() {
                assert(skipped[i - entries.len()] == all[i]);
            }
            assert(entries[i].1 == c);
        }
        if has_class(entries, c) {
            let i = choose|i: int| 0 <= i < entries.len() && (#[trigger] entries[i]).1 == c;
            assert(all[i] == entries[i]);
        }
    }
    assert forall|b: usize| is_leftmost_bad(all, b) == is_leftmost_bad(entries, b) by {
        if is_leftmost_bad(entries, b) {
            let i = choose|i: int| 0 <= i < entries.len() && (#[trigger] entries[i]) == (b, Classification::Bad);
            assert(all[i] == entries[i]);
            assert forall|j: int| 0 <= j < all.len() && (#[trigger] all[j]).1 == Classification::Bad implies b
                <= all[j].0 by {
                if j >= entries.len() {
                    assert(skipped[j - entries.len()] == all[j]);
                } else {
                    assert(all[j] == entries[j]);
                }
            }
        }
        if is_leftmost_bad(all, b) {
            let i = choose|i: int| 0 <= i < all.len() && (#[trigger] all[i]) == (b, Classification::Bad);
            if i >= entries.len() {
                assert(skipped[i - entries.len()] == all[i]);
            }
            assert(entries[i] == all[i]);
            assert forall|j: int| 0 <= j < entries.len() && (#[trigger] entries[j]).1 == Classification::Bad implies b
                <= entries[j].0 by {
                assert(all[j] == entries[j]);
            }
        }
    }
    let h = leftmost_bad(entries, high);
    assert(leftmost_bad(all, high) == h) by {
        if has_class(entries, Classification::Bad) {
            lemma_leftmost_exists(entries);
            let b = choose|b: usize| is_leftmost_bad(entries, b);
            assert(is_leftmost_bad(all, b));
            lemma_leftmost_unique(all, b);
            lemma_leftmost_unique(entries, b);
        }
    }
    assert forall|g: usize| is_rightmost_good_below(all, h, g) == is_rightmost_good_below(entries, h, g) by {
        if is_rightmost_good_below(entries, h, g) {
            let i = choose|i: int| 0 <= i < entries.len() && (#[trigger] entries[i]) == (g, Classification::Good);
            assert(all[i] == entries[i]);
            assert forall|j: int| 0 <= j < all.len() && (#[trigger] all[j]).1 == Classification::Good && all[j].0
                < h implies all[j].0 <= g by {
                if j >= entries.len() {
                    assert(skipped[j - entries.len()] == all[j]);
                } else {
                    assert(all[j] == entries[j]);
                }
            }
        }
        if is_rightmost_good_below(all, h, g) {
            let i = choose|i: int| 0 <= i < all.len() && (#[trigger] all[i]) == (g, Classification::Good);
            if i >= entries.len() {
                assert(skipped[i - entries.len()] == all[i]);
            }
            assert(entries[i] == all[i]);
            assert forall|j: int| 0 <= j < entries.len() && (#[trigger] entries[j]).1 == Classification::Good
                && entries[j].0 < h implies entries[j].0 <= g by {
                assert(all[j] == entries[j]);
            }
        }
    }
    assert(has_good_below(all, h) == has_good_below(entries, h)) by {
        if has_good_below(all, h) {
            let i = choose|i: int| 0 <= i < all.len() && (#[trigger] all[i]).1 == Classification::Good && all[i].0 < h;
            if i >= entries.len() {
                assert(skipped[i - entries.len()] == all[i]);
            }
            assert(entries[i] == all[i]);
        }
        if has_good_below(entries, h) {
            let i = choose|i: int| 0 <= i < entries.len() && (#[trigger] entries[i]).1 == Classification::Good
                && entries[i].0 < h;
            assert(all[i] == entries[i]);
        }
    }
    assert(rightmost_good_below(all, h, low) == rightmost_good_below(entries, h, low)) by {
        if has_good_below(entries, h) {
            lemma_rightmost_exists(entries, h);
            let g = choose|g: usize| is_rightmost_good_below(entries, h, g);
            assert(is_rightmost_good_below(all, h, g));
            lemma_rightmost_unique(all, h, g);
            lemma_rightmost_unique(entries, h, g);
        }
    }
}


pub proof fn lemma_leftmost_exists(entries: Seq<(usize, Classification)>)
    requires
        has_class(entries, Classification::Bad),
    ensures
        exists|b: usize| is_leftmost_bad(entries, b),
    decreases entries.len(),
{
    let rest = entries.drop_last();
    let last = entries.last();
    if has_class(rest, Classification::Bad) {
        lemma_leftmost_exists(rest);
        let b = choose|b: usize| is_leftmost_bad(rest, b);
        let k = choose|k: int| 0 <= k < rest.len() && (#[trigger] rest[k]) == (b, Classification::Bad);
        assert(entries[k] == rest[k]);
        if last.1 == Classification::Bad && last.0 < b {
            assert(entries[entries.len() - 1] == (last.0, Classification::Bad));
            assert forall|j: int| 0 <= j < entries.len() && (#[trigger] entries[j]).1 == Classification::Bad implies last.0 <= entries[j].0 by {
                if j < rest.len() {
                    assert(entries[j] == rest[j]);
                }
            }
            assert(is_leftmost_bad(entries, last.0));
        } else {
            assert forall|j: int| 0 <= j < entries.len() && (#[trigger] entries[j]).1 == Classification::Bad implies b <= entries[j].0 by {
                if j < rest.len() {
                    assert(entries[j] == rest[j]);
                }
            }
            assert(is_leftmost_bad(entries, b));
        }
    } else {
        let i = choose|i: int| 0 <= i < entries.len() && (#[trigger] entries[i]).1 == Classification::Bad;
        if i < rest.len() {
            assert(rest[i] == entries[i]);
        }
        assert(i == entries.len() - 1);
        assert forall|j: int| 0 <= j < entries.len() && (#[trigger] entries[j]).1 == Classification::Bad implies last.0 <= entries[j].0 by {
            if j < rest.len() {
                assert(rest[j] == entries[j]);
            }
        }
        assert(entries[i] == (last.0, Classification::Bad));
        assert(is_leftmost_bad(entries, last.0));
    }
}

pub proof fn lemma_rightmost_exists(entries: Seq<(usize, Classification)>, bound: usize)
    requires
        has_good_below(entries, bound),
    ensures
        exists|g: usize| is_rightmost_good_below(entries, bound, g),
    decreases entries.len(),
{
    let rest = entries.drop_last();
    let last = entries.last();
    let last_counts = last.1 == Classification::Good && last.0 < bound;
    if has_good_below(rest, bound) {
        lemma_rightmost_exists(rest, bound);
        let g = choose|g: usize| is_rightmost_good_below(rest, bound, g);
        let k = choose|k: int| 0 <= k < rest.len() && (#[trigger] rest[k]) == (g, Classification::Good);
        assert(entries[k] == rest[k]);
        if last_counts && last.0 > g {
            assert(entries[entries.len() - 1] == (last.0, Classification::Good));
            assert forall|j: int| 0 <= j < entries.len() && (#[trigger] entries[j]).1 == Classification::Good && entries[j].0 < bound implies entries[j].0 <= last.0 by {
                if j < rest.len() {
                    assert(entries[j] == rest[j]);
                }
            }
            assert(is_rightmost_good_below(entries, bound, last.0));
        } else {
            assert forall|j: int| 0 <= j < entries.len() && (#[trigger] entries[j]).1 == Classification::Good && entries[j].0 < bound implies entries[j].0 <= g by {
                if j < rest.len() {
                    assert(entries[j] == rest[j]);
                }
            }
            assert(is_rightmost_good_below(entries, bound, g));
        }
    } else {
        let i = choose|i: int| 0 <= i < entries.len() && (#[trigger] entries[i]).1 == Classification::Good && entries[i].0 < bound;
        if i < rest.len() {
            assert(rest[i] == entries[i]);
        }
        assert forall|j: int| 0 <= j < entries.len() && (#[trigger] entries[j]).1 == Classification::Good && entries[j].0 < bound implies entries[j].0 <= last.0 by {
            if j < rest.len() {
                assert(rest[j] == entries[j]);
            }
        }
        assert(entries[i] == (last.0, Classification::Good));
        assert(is_rightmost_good_below(entries, bound, last.0));
    }
}

/// Narrows `(low, high]` from one round's classifications, ignoring any good
/// result to the right of the leftmost bad one.
pub fn narrow_leftmost(low: usize, high: usize, classifications: &[(usize, Classification)]) -> (interval: (usize, usize))
    ensures
        interval == narrowed(low, high, classifications@),
{
    let new_high = match leftmost_bad_index(classifications) {
        Some(b) => {
            proof {
                lemma_leftmost_unique(classifications@, b);
            }
            b
        },
        None => high,
    };
    let new_low = match rightmost_good_index_below(classifications, new_high) {
        Some(g) => {
            proof {
                lemma_rightmost_unique(classifications@, new_high, g);
            }
            g
        },
        None => low,
    };
    (new_low, new_high)
}

/// Narrows `(low, high]` from one round's classifications; fails when a good
/// result lies to the right of a bad one.
pub fn narrow_interval(low: usize, high: usize, classifications: &[(usize, Classification)]) -> (result: Result<(usize, usize), NarrowError>)
    ensures
        result == (if non_monotone(classifications@) {
            Err(NarrowError::Inconsistent)
        } else {
            Ok(narrowed(low, high, classifications@))
        }),
{
    let first_bad = leftmost_bad_index(classifications);
    if let Some(bad) = first_bad {
        let mut i: usize = 0;
        while i < classifications.len()
            invariant
                i <= classifications@.len(),
                is_leftmost_bad(classifications@, bad),
                forall|k: int| 0 <= k < i ==> !((#[trigger] classifications@[k]).0 > bad && classifications@[k].1 == Classification::Good),
            decreases classifications@.len() - i,
        {
            let (index, class) = classifications[i];
            if index > bad && class == Classification::Good {
                proof {
                    let w = choose|w: int| 0 <= w < classifications@.len() && (#[trigger] classifications@[w]) == (bad, Classification::Bad);
                    assert(classifications@[w].1 == Classification::Bad);
                    assert(classifications@[i as int].1 == Classification::Good);
                }
                return Err(NarrowError::Inconsistent);
            }
            i = i + 1;
        }
        proof {
            if non_monotone(classifications@) {
                let (a, b) = choose|a: int, b: int|
                    0 <= a < classifications@.len() && 0 <= b < classifications@.len() && (#[trigger] classifications@[a]).1
                        == Classification::Bad && (#[trigger] classifications@[b]).1 == Classification::Good
                        && classifications@[b].0 > classifications@[a].0;
                assert(bad <= classifications@[a].0);
                assert(!(classifications@[b].0 > bad && classifications@[b].1 == Classification::Good));
            }
        }
    } else {
        proof {
            if non_monotone(classifications@) {
                let (a, b) = choose|a: int, b: int|
                    0 <= a < classifications@.len() && 0 <= b < classifications@.len() && (#[trigger] classifications@[a]).1
                        == Classification::Bad && (#[trigger] classifications@[b]).1 == Classification::Good
                        && classifications@[b].0 > classifications@[a].0;
                assert(has_class(classifications@, Classification::Bad));
            }
        }
    }
    Ok(narrow_leftmost(low, high, classifications))
}

/// The positions of the results that contradict monotonicity: the leftmost
/// bad result and every good result to its right.
pub open spec fn contradictory_positions(entries: Seq<(usize, Classification)>, first_bad: int) -> Seq<usize>
    decreases entries.len(),
{
    if entries.len() == 0 {
        Seq::empty()
    } else {
        let rest = contradictory_positions(entries.drop_last(), first_bad);
        let (index, class) = entries.last();
        if (index == first_bad && class == Classification::Bad) || (index > first_bad && class
            == Classification::Good) {
            rest.push(index)
        } else {
            rest
        }
    }
}

/// The leftmost bad index, or the largest `usize` when none is bad.
pub open spec fn first_bad_or_max(entries: Seq<(usize, Classification)>) -> int {
    if has_class(entries, Classification::Bad) {
        leftmost_bad(entries, 0) as int
    } else {
        usize::MAX as int
    }
}

/// The commits at `indices`.
pub open spec fn shas_at(commits: Seq<String>, indices: Seq<usize>) -> Seq<String> {
    indices.map_values(|i: usize| commits[i as int])
}

/// The commits whose results contradict monotonicity, in the order of
/// `classifications`: the leftmost bad one and every good one to its right.
pub fn contradictory_shas(commits: &[String], classifications: &[(usize, Classification)]) -> (shas: Vec<String>)
    requires
        forall|i: int| 0 <= i < classifications@.len() ==> (#[trigger] classifications@[i]).0 < commits@.len(),
    ensures
        shas@ == shas_at(commits@, contradictory_positions(classifications@, first_bad_or_max(classifications@))),
{
    let first_bad: usize = match leftmost_bad_index(classifications) {
        Some(b) => {
            proof {
                lemma_leftmost_unique(classifications@, b);
            }
            b
        },
        None => usize::MAX,
    };
    let ghost fb = first_bad_or_max(classifications@);
    let mut shas: Vec<String> = Vec::new();
    let mut i: usize = 0;
    while i < classifications.len()
        invariant
            i <= classifications@.len(),
            fb == first_bad as int,
            forall|k: int| 0 <= k < classifications@.len() ==> (#[trigger] classifications@[k]).0 < commits@.len(),
            shas@ == shas_at(commits@, contradictory_positions(classifications@.subrange(0, i as int), fb)),
        decreases classifications@.len() - i,
    {
        let (index, class) = classifications[i];
        proof {
            assert(classifications@.subrange(0, i + 1).drop_last() =~= classifications@.subrange(0, i as int));
        }
        if (index == first_bad && class == Classification::Bad) || (index > first_bad && class
            == Classification::Good) {
            shas.push(commits[index].clone());
        }
        proof {
            let prev = contradictory_positions(classifications@.subrange(0, i as int), fb);
            let next = contradictory_positions(classifications@.subrange(0, i + 1), fb);
            if (index == first_bad && class == Classification::Bad) || (index > first_bad && class == Classification::Good) {
                assert(next == prev.push(index));
                assert(shas_at(commits@, next) =~= shas_at(commits@, prev).push(commits@[index as int]));
            } else {
                assert(next == prev);
            }
        }
        i = i + 1;
    }
    assert(classifications@.subrange(0, classifications@.len() as int) =~= classifications@);
    shas
}

// ---------------------------------------------------------------------------
// Reading the ledger

/// The classification recorded for `sha`, if it has been evaluated.
pub open spec fn recorded_class(ledger: Map<Seq<char>, Evaluation>, sha: Seq<char>) -> Option<Classification> {
    if ledger.contains_key(sha) {
        Some(ledger[sha].classification)
    } else {
        None
    }
}

/// The interior indices of `(low, high)` whose commit has been evaluated.
pub open spec fn evaluated_interior(
    commits: Seq<String>,
    ledger: Map<Seq<char>, Evaluation>,
    low: usize,
    high: usize,
) -> Set<usize> {
    Set::new(|i: usize| low < i < high && ledger.contains_key(commits[i as int]@))
}

/// The evaluated interior commits of `(low, high)` as (index, classification)
/// pairs, by increasing index; `k` bounds the indices considered.
pub open spec fn interior_results(
    commits: Seq<String>,
    ledger: Map<Seq<char>, Evaluation>,
    low: int,
    k: int,
) -> Seq<(usize, Classification)>
    decreases k - low,
{
    if k <= low + 1 {
        Seq::empty()
    } else {
        let rest = interior_results(commits, ledger, low, k - 1);
        let sha = commits[k - 1]@;
        if ledger.contains_key(sha) {
            rest.push(((k - 1) as usize, ledger[sha].classification))
        } else {
            rest
        }
    }
}


/// Every evaluated interior result is an index strictly inside the interval
/// carrying the class the ledger records for that commit.
pub proof fn lemma_interior_results(
    commits: Seq<String>,
    ledger: Map<Seq<char>, Evaluation>,
    low: int,
    k: int,
)
    requires
        0 <= low,
        k <= commits.len(),
        k <= usize::MAX,
    ensures
        forall|i: int| 0 <= i < interior_results(commits, ledger, low, k).len() ==> {
            let (index, class) = #[trigger] interior_results(commits, ledger, low, k)[i];
            &&& low < index < k
            &&& recorded_class(ledger, commits[index as int]@) == Some(class)
        },
    decreases k - low,
{
    if k > low + 1 {
        lemma_interior_results(commits, ledger, low, k - 1);
        let rest = interior_results(commits, ledger, low, k - 1);
        let all = interior_results(commits, ledger, low, k);
        assert forall|i: int| 0 <= i < all.len() implies {
            let (index, class) = #[trigger] all[i];
            &&& low < index < k
            &&& recorded_class(ledger, commits[index as int]@) == Some(class)
        } by {
            if i < rest.len() {
                assert(all[i] == rest[i]);
            }
        }
    }
}

/// The contradictory positions are indices of `entries`.
pub proof fn lemma_contradictory_from_entries(entries: Seq<(usize, Classification)>, first_bad: int)
    ensures
        forall|i: int| 0 <= i < contradictory_positions(entries, first_bad).len() ==> exists|j: int|
            0 <= j < entries.len() && (#[trigger] entries[j]).0 == #[trigger] contradictory_positions(entries, first_bad)[i],
    decreases entries.len(),
{
    if entries.len() > 0 {
        let rest = entries.drop_last();
        lemma_contradictory_from_entries(rest, first_bad);
        let prev = contradictory_positions(rest, first_bad);
        let cur = contradictory_positions(entries, first_bad);
        assert forall|i: int| 0 <= i < cur.len() implies exists|j: int|
            0 <= j < entries.len() && (#[trigger] entries[j]).0 == #[trigger] cur[i] by {
            if i < prev.len() {
                assert(cur[i] == prev[i]);
                let j = choose|j: int| 0 <= j < rest.len() && (#[trigger] rest[j]).0 == prev[i];
                assert(entries[j] == rest[j]);
            } else {
                assert(entries[entries.len() - 1].0 == cur[i]);
            }
        }
    }
}

/// The indices in `(low, high)` whose commits the ledger already holds.
pub fn tested_indices(commits: &[String], state: &RunState, low: usize, high: usize) -> (tested: BTreeSet<usize>)
    requires
        high <= commits@.len(),
        state.evaluations.well_formed(),
    ensures
        tested@ == evaluated_interior(commits@, state.evaluations@, low, high),
{
    let mut tested: BTreeSet<usize> = BTreeSet::new();
    if low >= high {
        assert(tested@ =~= evaluated_interior(commits@, state.evaluations@, low, high));
        return tested;
    }
    let mut index: usize = low + 1;
    while index < high
        invariant
            low < high <= commits@.len(),
            low + 1 <= index <= high,
            state.evaluations.well_formed(),
            tested@ == Set::new(|i: usize| low < i < index && state.evaluations@.contains_key(commits@[i as int]@)),
        decreases high - index,
    {
        if state.evaluations.contains_key(commits[index].as_str()) {
            tested.insert(index);
        }
        proof {
            assert(tested@ =~= Set::new(|i: usize| low < i < index + 1 && state.evaluations@.contains_key(commits@[i as int]@)));
        }
        index = index + 1;
    }
    assert(tested@ =~= evaluated_interior(commits@, state.evaluations@, low, high));
    tested
}

/// The classifications recorded for the commits strictly inside
/// `(low, high)`, by increasing index.
pub fn interval_classifications(commits: &[String], state: &RunState, low: usize, high: usize) -> (results: Vec<(usize, Classification)>)
    requires
        high <= commits@.len(),
        state.evaluations.well_formed(),
    ensures
        results@ == interior_results(commits@, state.evaluations@, low as int, high as int),
{
    let mut results: Vec<(usize, Classification)> = Vec::new();
    if low >= high {
        return results;
    }
    let mut index: usize = low + 1;
    while index < high
        invariant
            low < high <= commits@.len(),
            low + 1 <= index <= high,
            state.evaluations.well_formed(),
            results@ == interior_results(commits@, state.evaluations@, low as int, index as int),
        decreases high - index,
    {
        match state.evaluations.get(commits[index].as_str()) {
            Some(evaluation) => {
                results.push((index, evaluation.classification));
            },
            None => {},
        }
        index = index + 1;
    }
    results
}


// ---------------------------------------------------------------------------
// Convergence of k-section on monotone histories

/// The results of probing `selected` when every commit before `boundary` is
/// good and every other commit is bad.
pub open spec fn monotone_results(selected: Seq<usize>, boundary: usize) -> Seq<(usize, Classification)> {
    selected.map_values(
        |x: usize|
            (x, if x < boundary {
                Classification::Good
            } else {
                Classification::Bad
            }),
    )
}

/// One round on a monotone history whose first bad commit is `boundary`,
/// with nothing tested yet inside the interval.
pub open spec fn monotone_round(low: usize, high: usize, jobs: usize, boundary: usize) -> (usize, usize) {
    narrowed(low, high, monotone_results(probe_set(low, high, jobs, Set::empty()), boundary))
}

/// The number of rounds k-section takes on a monotone history.
pub open spec fn monotone_rounds(low: usize, high: usize, jobs: usize, boundary: usize) -> nat
    decreases high - low,
{
    if high <= low + 1 || !(low < boundary <= high) || jobs == 0 {
        0
    } else {
        let (l, h) = monotone_round(low, high, jobs, boundary);
        if l < h && h - l < high - low {
            1 + monotone_rounds(l, h, jobs, boundary)
        } else {
            1
        }
    }
}

/// The interval on which k-section stops on a monotone history.
pub open spec fn monotone_final(low: usize, high: usize, jobs: usize, boundary: usize) -> (usize, usize)
    decreases high - low,
{
    if high <= low + 1 || !(low < boundary <= high) || jobs == 0 {
        (low, high)
    } else {
        let (l, h) = monotone_round(low, high, jobs, boundary);
        if l < h && h - l < high - low {
            monotone_final(l, h, jobs, boundary)
        } else {
            (l, h)
        }
    }
}

proof fn lemma_floor_div(x: int, m: int)
    requires
        m > 0,
        x >= 0,
    ensures
        m * (x / m) <= x < m * (x / m) + m,
        x / m >= 0,
{
    vstd::arithmetic::div_mod::lemma_fundamental_div_mod(x, m);
    vstd::arithmetic::div_mod::lemma_mod_pos_bound(x, m);
    vstd::arithmetic::div_mod::lemma_div_pos_is_pos(x, m);
}

/// Consecutive points `p * span / m` lie at least one and at most
/// `ceil(span / m)` apart.
proof fn lemma_point_step(p: int, span: int, m: int)
    requires
        m >= 1,
        span >= m,
        p >= 0,
    ensures
        (p + 1) * span / m >= p * span / m + 1,
        (p + 1) * span / m <= p * span / m + (span + m - 1) / m,
{
    let x = p * span;
    let y = (p + 1) * span;
    assert(y == x + span) by (nonlinear_arith)
        requires y == (p + 1) * span, x == p * span;
    assert(x >= 0) by (nonlinear_arith)
        requires x == p * span, p >= 0, span >= 0;
    lemma_floor_div(x, m);
    lemma_floor_div(y, m);
    lemma_floor_div(span + m - 1, m);
    let q1 = x / m;
    let q2 = y / m;
    let c = (span + m - 1) / m;
    assert(q2 >= q1 + 1) by (nonlinear_arith)
        requires m * q1 <= x, y < m * q2 + m, y == x + span, span >= m, m >= 1;
    assert(m * c >= span) by (nonlinear_arith)
        requires span + m - 1 < m * c + m, m >= 1;
    assert(q2 <= q1 + c) by (nonlinear_arith)
        requires m * q2 <= y, x < m * q1 + m, y == x + span, m * c >= span, m >= 1;
}

/// Points further along are strictly greater.
proof fn lemma_point_increasing(p: int, q: int, span: int, m: int)
    requires
        m >= 1,
        span >= m,
        0 <= p < q,
    ensures
        q * span / m >= p * span / m + (q - p),
    decreases q - p,
{
    lemma_point_step(q - 1, span, m);
    if q - 1 > p {
        lemma_point_increasing(p, q - 1, span, m);
    }
}

proof fn lemma_point_ends(low: int, span: int, m: int)
    requires
        m >= 1,
        span >= 0,
    ensures
        target(low, span, m - 1, 0) == low,
        target(low, span, m - 1, m) == low + span,
{
    assert(0 * span == 0);
    assert(m * span / m == span) by {
        vstd::arithmetic::div_mod::lemma_div_multiples_vanish(span, m);
        assert(m * span == span * m) by (nonlinear_arith);
    }
}

/// Every point lies within `[low, low + span]`.
proof fn lemma_target_in_range(low: int, span: int, count: int, q: int)
    requires
        count >= 0,
        span >= 0,
        0 <= q <= count + 1,
    ensures
        low <= target(low, span, count, q) <= low + span,
{
    let m = count + 1;
    assert(q * span <= m * span) by (nonlinear_arith)
        requires q <= m, span >= 0;
    assert(q * span >= 0) by (nonlinear_arith)
        requires q >= 0, span >= 0;
    vstd::arithmetic::div_mod::lemma_div_is_ordered(q * span, m * span, m);
    vstd::arithmetic::div_mod::lemma_div_pos_is_pos(q * span, m);
    assert(m * span / m == span) by {
        vstd::arithmetic::div_mod::lemma_div_multiples_vanish(span, m);
        assert(m * span == span * m) by (nonlinear_arith);
    }
}

/// The targets `p..=count`, in order.
pub open spec fn targets_from(low: int, span: int, count: int, p: int) -> Seq<usize>
    decreases count + 1 - p,
{
    if p > count || p < 1 {
        Seq::empty()
    } else {
        seq![target(low, span, count, p) as usize] + targets_from(low, span, count, p + 1)
    }
}

pub open spec fn is_earlier_target(low: int, span: int, count: int, p: int, x: usize) -> bool {
    exists|q: int| 1 <= q < p && #[trigger] target(low, span, count, q) == x
}

/// With nothing tested, every target is free when its turn comes, so the
/// greedy selection takes exactly the targets.
proof fn lemma_greedy_hits_targets(candidates: Seq<usize>, low: usize, high: usize, count: int, p: int)
    requires
        low < high,
        1 <= count,
        count + 1 <= high - low,
        1 <= p <= count + 1,
        distinct(candidates),
        forall|x: usize| #[trigger]
            candidates.contains(x) <==> (low < x < high && !is_earlier_target(
                low as int,
                high - low,
                count,
                p,
                x,
            )),
    ensures
        greedy_picks(candidates, low as int, high - low, count, p) == targets_from(
            low as int,
            high - low,
            count,
            p,
        ),
    decreases count + 1 - p,
{
    let span = high - low;
    let m = count + 1;
    if p <= count {
        let t = target(low as int, span, count, p);
        lemma_point_increasing(0, p, span, m);
        lemma_point_increasing(p, m, span, m);
        lemma_point_ends(low as int, span, m);
        assert(low < t < high);
        assert(!is_earlier_target(low as int, span, count, p, t as usize)) by {
            if is_earlier_target(low as int, span, count, p, t as usize) {
                let q = choose|q: int| 1 <= q < p && #[trigger] target(low as int, span, count, q) == t as usize;
                lemma_point_increasing(q, p, span, m);
            }
        }
        assert(candidates.contains(t as usize));
        let i = choose|i: int| 0 <= i < candidates.len() && candidates[i] == t as usize;
        assert(is_nearest(candidates, t, i)) by {
            assert forall|j: int| 0 <= j < candidates.len() && j != i implies !prefers(candidates[j], candidates[i], t) by {
                assert(candidates[j] != candidates[i]);
            }
        }
        lemma_nearest_unique(candidates, t, i);
        lemma_remove_distinct(candidates, i);
        let rest = candidates.remove(i);
        assert forall|x: usize| #[trigger]
            rest.contains(x) <==> (low < x < high && !is_earlier_target(low as int, span, count, p + 1, x)) by {
            if is_earlier_target(low as int, span, count, p + 1, x) && !is_earlier_target(low as int, span, count, p, x) {
                let q = choose|q: int| 1 <= q < p + 1 && #[trigger] target(low as int, span, count, q) == x;
                assert(q == p);
            }
            if is_earlier_target(low as int, span, count, p, x) {
                let q = choose|q: int| 1 <= q < p && #[trigger] target(low as int, span, count, q) == x;
                assert(is_earlier_target(low as int, span, count, p + 1, x));
            }
            if x == t as usize {
                assert(target(low as int, span, count, p) == x);
                assert(is_earlier_target(low as int, span, count, p + 1, x));
            }
        }
        lemma_greedy_hits_targets(rest, low, high, count, p + 1);
    }
}

/// The first point at or past `boundary`, searching from `p`.
pub open spec fn first_reaching(low: int, span: int, count: int, boundary: int, p: int) -> int
    decreases count + 1 - p,
{
    if p >= count + 1 || target(low, span, count, p) >= boundary {
        p
    } else {
        first_reaching(low, span, count, boundary, p + 1)
    }
}

proof fn lemma_first_reaching(low: int, span: int, count: int, boundary: int, p: int)
    requires
        1 <= p <= count + 1,
        target(low, span, count, count + 1) >= boundary,
    ensures
        p <= first_reaching(low, span, count, boundary, p) <= count + 1,
        target(low, span, count, first_reaching(low, span, count, boundary, p)) >= boundary,
        forall|q: int| p <= q < first_reaching(low, span, count, boundary, p) ==> #[trigger] target(low, span, count, q) < boundary,
    decreases count + 1 - p,
{
    if !(p >= count + 1 || target(low, span, count, p) >= boundary) {
        lemma_first_reaching(low, span, count, boundary, p + 1);
    }
}

/// Narrowing a monotone round: the new interval is the pair of consecutive
/// points around the boundary.
proof fn lemma_narrow_monotone(low: usize, high: usize, count: int, boundary: usize, selected: Seq<usize>)
    requires
        low < boundary <= high,
        1 <= count,
        count + 1 <= high - low,
        forall|x: usize| #[trigger]
            selected.contains(x) <==> is_earlier_target(low as int, high - low, count, count + 1, x),
    ensures
        ({
            let span = high - low;
            let j = first_reaching(low as int, span, count, boundary as int, 1);
            &&& !non_monotone(monotone_results(selected, boundary))
            &&& narrowed(low, high, monotone_results(selected, boundary)) == (
                target(low as int, span, count, j - 1) as usize,
                target(low as int, span, count, j) as usize,
            )
            &&& 1 <= j <= count + 1
            &&& target(low as int, span, count, j - 1) < boundary <= target(low as int, span, count, j)
            &&& target(low as int, span, count, j) - target(low as int, span, count, j - 1) <= (span + count) / (count + 1)
        }),
{
    let span = high - low;
    let m = count + 1;
    let entries = monotone_results(selected, boundary);
    lemma_point_ends(low as int, span as int, m);
    lemma_first_reaching(low as int, span as int, count, boundary as int, 1);
    let j = first_reaching(low as int, span as int, count, boundary as int, 1);
    let h = target(low as int, span as int, count, j);
    let l = target(low as int, span as int, count, j - 1);
    lemma_target_in_range(low as int, span as int, count, j);
    lemma_target_in_range(low as int, span as int, count, j - 1);
    lemma_point_step(j - 1, span as int, m);
    if j - 1 >= 1 {
        assert(target(low as int, span as int, count, j - 1) < boundary);
    }
    // Every selected index is a point p in 1..=count.
    assert forall|i: int| 0 <= i < entries.len() implies (#[trigger] entries[i]).0 == selected[i]
        && (entries[i].1 == Classification::Good <==> selected[i] < boundary)
        && (entries[i].1 == Classification::Bad <==> selected[i] >= boundary) by {}
    // No good entry to the right of a bad one.
    assert(!non_monotone(entries)) by {
        if non_monotone(entries) {
            let (a, b) = choose|a: int, b: int|
                0 <= a < entries.len() && 0 <= b < entries.len() && (#[trigger] entries[a]).1
                    == Classification::Bad && (#[trigger] entries[b]).1 == Classification::Good
                    && entries[b].0 > entries[a].0;
        }
    }
    // The upper bound.
    let new_high = leftmost_bad(entries, high);
    assert(new_high == h as usize) by {
        if j <= count {
            assert(is_earlier_target(low as int, span as int, count, m, h as usize));
            assert(selected.contains(h as usize));
            let i = choose|i: int| 0 <= i < selected.len() && selected[i] == h as usize;
            assert(entries[i] == (h as usize, Classification::Bad));
            assert(is_leftmost_bad(entries, h as usize)) by {
                assert forall|k: int| 0 <= k < entries.len() && (#[trigger] entries[k]).1 == Classification::Bad implies h as usize <= entries[k].0 by {
                    assert(selected.contains(selected[k]));
                    let q = choose|q: int| 1 <= q < m && #[trigger] target(low as int, span as int, count, q) == selected[k];
                    if q < j {
                        assert(target(low as int, span as int, count, q) < boundary);
                    } else if q > j {
                        lemma_point_increasing(j, q, span as int, m);
                    }
                }
            }
            assert(has_class(entries, Classification::Bad));
            lemma_leftmost_unique(entries, h as usize);
        } else {
            assert(!has_class(entries, Classification::Bad)) by {
                if has_class(entries, Classification::Bad) {
                    let k = choose|k: int| 0 <= k < entries.len() && (#[trigger] entries[k]).1 == Classification::Bad;
                    assert(selected.contains(selected[k]));
                    let q = choose|q: int| 1 <= q < m && #[trigger] target(low as int, span as int, count, q) == selected[k];
                    assert(target(low as int, span as int, count, q) < boundary);
                }
            }
        }
    }
    // The lower bound.
    let new_low = rightmost_good_below(entries, new_high, low);
    assert(new_low == l as usize) by {
        if j - 1 >= 1 {
            assert(is_earlier_target(low as int, span as int, count, m, l as usize));
            assert(selected.contains(l as usize));
            let i = choose|i: int| 0 <= i < selected.len() && selected[i] == l as usize;
            assert(entries[i] == (l as usize, Classification::Good));
            lemma_point_increasing(j - 1, j, span as int, m);
            assert(is_rightmost_good_below(entries, new_high, l as usize)) by {
                assert forall|k: int| 0 <= k < entries.len() && (#[trigger] entries[k]).1 == Classification::Good && entries[k].0 < new_high implies entries[k].0 <= l as usize by {
                    assert(selected.contains(selected[k]));
                    let q = choose|q: int| 1 <= q < m && #[trigger] target(low as int, span as int, count, q) == selected[k];
                    if q > j - 1 {
                        if q == j {
                        } else {
                            lemma_point_increasing(j, q, span as int, m);
                        }
                    } else if q < j - 1 {
                        lemma_point_increasing(q, j - 1, span as int, m);
                    }
                }
            }
            lemma_rightmost_unique(entries, new_high, l as usize);
        } else {
            assert(!has_good_below(entries, new_high)) by {
                if has_good_below(entries, new_high) {
                    let k = choose|k: int| 0 <= k < entries.len() && (#[trigger] entries[k]).1 == Classification::Good && entries[k].0 < new_high;
                    assert(selected.contains(selected[k]));
                    let q = choose|q: int| 1 <= q < m && #[trigger] target(low as int, span as int, count, q) == selected[k];
                    lemma_point_increasing(j, q, span as int, m);
                }
            }
        }
    }
}

/// The probes of a round with nothing tested are exactly the targets.
proof fn lemma_untested_probes(low: usize, high: usize, jobs: usize)
    requires
        low + 1 < high,
        jobs >= 1,
    ensures
        ({
            let count = min_usize(jobs as int, high - low - 1);
            forall|x: usize| #[trigger] probe_set(low, high, jobs, Set::empty()).contains(x)
                <==> is_earlier_target(low as int, high - low, count, count + 1, x)
        }),
{
    let tested = Set::<usize>::empty();
    let candidates = untested_interior(low, high, tested);
    lemma_untested_below(low as int, high as int, tested);
    lemma_increasing_distinct(candidates);
    let count = min_usize(jobs as int, candidates.len() as int);
    assert(candidates.len() == high - low - 1);
    assert forall|x: usize| #[trigger] candidates.contains(x) <==> (low < x < high && !is_earlier_target(low as int, high - low, count, 1, x)) by {}
    lemma_greedy_hits_targets(candidates, low, high, count, 1);
    lemma_targets_members(low as int, high - low, count, 1);
}

proof fn lemma_targets_members(low: int, span: int, count: int, p: int)
    requires
        1 <= p <= count + 1,
        0 <= low,
        0 <= span,
        low + span <= usize::MAX,
    ensures
        forall|x: usize| #[trigger] targets_from(low, span, count, p).contains(x) <==> (exists|q: int| p <= q <= count && #[trigger] target(low, span, count, q) == x),
        p == 1 ==> forall|x: usize| #[trigger] targets_from(low, span, count, 1).contains(x) <==> is_earlier_target(low, span, count, count + 1, x),
    decreases count + 1 - p,
{
    if p <= count {
        lemma_targets_members(low, span, count, p + 1);
        let rest = targets_from(low, span, count, p + 1);
        let all = targets_from(low, span, count, p);
        assert(all == seq![target(low, span, count, p) as usize] + rest);
        assert forall|x: usize| #[trigger] all.contains(x) <==> (exists|q: int| p <= q <= count && #[trigger] target(low, span, count, q) == x) by {
            if all.contains(x) {
                let i = choose|i: int| 0 <= i < all.len() && all[i] == x;
                if i == 0 {
                    lemma_target_in_range(low, span, count, p);
                    assert(target(low, span, count, p) == x);
                } else {
                    assert(rest[i - 1] == x);
                    assert(rest.contains(x));
                }
            }
            if exists|q: int| p <= q <= count && #[trigger] target(low, span, count, q) == x {
                let q = choose|q: int| p <= q <= count && #[trigger] target(low, span, count, q) == x;
                if q == p {
                    lemma_target_in_range(low, span, count, p);
                    assert(all[0] == x);
                } else {
                    assert(rest.contains(x));
                    let i = choose|i: int| 0 <= i < rest.len() && rest[i] == x;
                    assert(all[i + 1] == x);
                }
            }
        }
    } else {
        assert forall|x: usize| #[trigger] targets_from(low, span, count, p).contains(x) <==> (exists|q: int| p <= q <= count && #[trigger] target(low, span, count, q) == x) by {}
    }
    if p == 1 {
        assert forall|x: usize| #[trigger] targets_from(low, span, count, 1).contains(x) <==> is_earlier_target(low, span, count, count + 1, x) by {
            if is_earlier_target(low, span, count, count + 1, x) {
                let q = choose|q: int| 1 <= q < count + 1 && #[trigger] target(low, span, count, q) == x;
            }
            if exists|q: int| 1 <= q <= count && #[trigger] target(low, span, count, q) == x {
                let q = choose|q: int| 1 <= q <= count && #[trigger] target(low, span, count, q) == x;
                assert(1 <= q < count + 1);
            }
        }
    }
}

/// One round of k-section on a monotone history, whatever order the probes
/// come in: the results are consistent, the boundary stays inside the new
/// interval, and the interval shrinks to at most `ceil(span / (k + 1))`
/// where `k = min(jobs, span - 1)`.
pub proof fn lemma_monotone_round(low: usize, high: usize, jobs: usize, boundary: usize, selected: Seq<usize>)
    requires
        low < boundary <= high,
        low + 1 < high,
        jobs >= 1,
        forall|x: usize| #[trigger] selected.contains(x) <==> probe_set(low, high, jobs, Set::empty()).contains(x),
    ensures
        !non_monotone(monotone_results(selected, boundary)),
        narrowed(low, high, monotone_results(selected, boundary)) == monotone_round(low, high, jobs, boundary),
        ({
            let (l, h) = monotone_round(low, high, jobs, boundary);
            let k = min_usize(jobs as int, high - low - 1);
            &&& low <= l < boundary <= h <= high
            &&& h - l <= (high - low + k) / (k + 1)
        }),
{
    let count = min_usize(jobs as int, high - low - 1);
    lemma_untested_probes(low, high, jobs);
    let canonical = probe_set(low, high, jobs, Set::empty());
    lemma_narrow_monotone(low, high, count, boundary, selected);
    lemma_narrow_monotone(low, high, count, boundary, canonical);
    let j = first_reaching(low as int, high - low, count, boundary as int, 1);
    lemma_point_ends(low as int, high - low, count + 1);
    if j - 1 > 0 {
        lemma_point_increasing(0, j - 1, high - low, count + 1);
    }
    if j < count + 1 {
        lemma_point_increasing(j, count + 1, high - low, count + 1);
    }
}

/// k-section on a monotone history ends on the interval `(boundary - 1,
/// boundary]` (the first bad commit and the last good one), within `r`
/// rounds whenever `(jobs + 1)^r` covers the initial span.
pub proof fn lemma_k_section_converges(low: usize, high: usize, jobs: usize, boundary: usize, r: nat)
    requires
        low < boundary <= high,
        jobs >= 1,
        vstd::arithmetic::power::pow(jobs + 1, r) >= high - low,
    ensures
        monotone_final(low, high, jobs, boundary) == ((boundary - 1) as usize, boundary),
        monotone_rounds(low, high, jobs, boundary) <= r,
    decreases high - low,
{
    if high > low + 1 {
        lemma_monotone_round(low, high, jobs, boundary, probe_set(low, high, jobs, Set::empty()));
        let (l, h) = monotone_round(low, high, jobs, boundary);
        let d = high - low;
        let k = min_usize(jobs as int, d - 1);
        if r == 0 {
            vstd::arithmetic::power::lemma_pow0(jobs + 1);
            assert(false);
        }
        let r1 = (r - 1) as nat;
        vstd::arithmetic::power::lemma_pow_positive(jobs + 1, r1);
        assert(vstd::arithmetic::power::pow(jobs + 1, r) == (jobs + 1) * vstd::arithmetic::power::pow(jobs + 1, r1)) by {
            reveal(vstd::arithmetic::power::pow);
        }
        if k == d - 1 {
            // Every interior commit is probed: the new interval has span 1.
            assert((d + k) / (k + 1) == 1) by {
                vstd::arithmetic::div_mod::lemma_div_multiples_vanish_fancy(1, d - 1, d);
                assert(d * 1 + (d - 1) == d + k);
            }
            assert(h - l == 1);
            assert(monotone_rounds(l, h, jobs, boundary) == 0);
            assert(monotone_final(l, h, jobs, boundary) == (l, h));
        } else {
            assert(k == jobs);
            let c = (d + k) / (k + 1);
            let pr = vstd::arithmetic::power::pow(jobs + 1, r1);
            lemma_floor_div(d + k, k + 1);
            assert(pr >= c) by (nonlinear_arith)
                requires (k + 1) * pr >= d, (k + 1) * c <= d + k, k >= 1;
            assert(c < d) by (nonlinear_arith)
                requires (k + 1) * c <= d + k, k >= 1, d > k + 1;
            lemma_k_section_converges(l, h, jobs, boundary, r1);
        }
    }
}


/// The interval before round `i` of a run: the starting one, then what the
/// previous round's narrowing gave.
pub open spec fn run_interval(
    low: usize,
    high: usize,
    outcomes: Seq<Result<(usize, usize), NarrowError>>,
    i: int,
) -> (usize, usize) {
    if i == 0 {
        (low, high)
    } else {
        match outcomes[i - 1] {
            Ok(interval) => interval,
            Err(_) => (low, high),
        }
    }
}

/// A run of k-section rounds on a monotone history whose first bad commit
/// is `boundary`, starting on `(low, high]`: round `i` runs while its
/// interval has an interior, its probes are what `probes` returns there with
/// nothing tested, and its outcome is what `narrow_interval` returns on
/// their results.
pub open spec fn monotone_run(
    low: usize,
    high: usize,
    jobs: usize,
    boundary: usize,
    selections: Seq<Seq<usize>>,
    outcomes: Seq<Result<(usize, usize), NarrowError>>,
) -> bool {
    &&& selections.len() == outcomes.len()
    &&& forall|i: int| 0 <= i < outcomes.len() ==> {
        let (l, h) = #[trigger] run_interval(low, high, outcomes, i);
        let results = monotone_results(selections[i], boundary);
        &&& l + 1 < h
        &&& strictly_increasing(selections[i])
        &&& forall|x: usize| #[trigger] selections[i].contains(x) <==> probe_set(l, h, jobs, Set::empty()).contains(x)
        &&& outcomes[i] == (if non_monotone(results) {
            Err(NarrowError::Inconsistent)
        } else {
            Ok(narrowed(l, h, results))
        })
    }
}

proof fn lemma_run_prefix(
    low: usize,
    high: usize,
    jobs: usize,
    boundary: usize,
    selections: Seq<Seq<usize>>,
    outcomes: Seq<Result<(usize, usize), NarrowError>>,
    i: int,
)
    requires
        low < boundary <= high,
        jobs >= 1,
        monotone_run(low, high, jobs, boundary, selections, outcomes),
        0 <= i <= outcomes.len(),
    ensures
        forall|j: int| 0 <= j < i ==> (#[trigger] outcomes[j]) is Ok,
        ({
            let (l, h) = run_interval(low, high, outcomes, i);
            &&& l < boundary <= h
            &&& monotone_rounds(l, h, jobs, boundary) + i == monotone_rounds(low, high, jobs, boundary)
            &&& monotone_final(l, h, jobs, boundary) == monotone_final(low, high, jobs, boundary)
        }),
    decreases i,
{
    if i > 0 {
        lemma_run_prefix(low, high, jobs, boundary, selections, outcomes, i - 1);
        let (l, h) = run_interval(low, high, outcomes, i - 1);
        lemma_monotone_round(l, h, jobs, boundary, selections[i - 1]);
        let (l2, h2) = monotone_round(l, h, jobs, boundary);
        assert(outcomes[i - 1] == Ok::<(usize, usize), NarrowError>((l2, h2)));
        assert(run_interval(low, high, outcomes, i) == (l2, h2));
        let d = h - l;
        let k = min_usize(jobs as int, d - 1);
        let c = (d + k) / (k + 1);
        lemma_floor_div(d + k, k + 1);
        assert(c < d) by (nonlinear_arith)
            requires
                (k + 1) * c <= d + k,
                k >= 1,
                d >= 2,
        ;
        assert(h2 - l2 < h - l);
    }
}

/// k-section converges on a monotone history when driven by `probes` and
/// `narrow_interval`: every narrowing succeeds, the first bad commit stays
/// inside the interval, a run has at most `r` rounds whenever
/// `(jobs + 1)^r` covers the initial span (so none when the span is one),
/// and a run that stops ends on `(boundary - 1, boundary]`.
pub proof fn lemma_monotone_run_converges(
    low: usize,
    high: usize,
    jobs: usize,
    boundary: usize,
    r: nat,
    selections: Seq<Seq<usize>>,
    outcomes: Seq<Result<(usize, usize), NarrowError>>,
)
    requires
        low < boundary <= high,
        jobs >= 1,
        vstd::arithmetic::power::pow(jobs + 1, r) >= high - low,
        monotone_run(low, high, jobs, boundary, selections, outcomes),
    ensures
        forall|j: int| 0 <= j < outcomes.len() ==> (#[trigger] outcomes[j]) is Ok,
        outcomes.len() <= r,
        ({
            let (l, h) = run_interval(low, high, outcomes, outcomes.len() as int);
            &&& l < boundary <= h
            &&& h <= l + 1 ==> l == boundary - 1 && h == boundary
        }),
{
    lemma_run_prefix(low, high, jobs, boundary, selections, outcomes, outcomes.len() as int);
    lemma_k_section_converges(low, high, jobs, boundary, r);
}

} // verus!
