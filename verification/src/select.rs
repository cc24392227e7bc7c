//! The choice of the best-scored sentences.

use vstd::prelude::*;
use vstd::set_lib::lemma_len_subset;

verus! {

/// Whether sentence `i` is chosen before sentence `j`: it has the higher
/// score, or the same score and the earlier place in the document.
pub open spec fn outranks(scores: Seq<u64>, i: int, j: int) -> bool {
    scores[i] > scores[j] || (scores[i] == scores[j] && i < j)
}

/// Whether the indices rise strictly.
pub open spec fn ascending(picked: Seq<usize>) -> bool {
    forall|a: int, b: int| 0 <= a < b < picked.len() ==> picked[a] < picked[b]
}

/// The indices from zero up to, but without, `len`.
pub open spec fn all_indices(len: nat) -> Seq<usize> {
    Seq::new(len, |i: int| i as usize)
}

/// Whether `picked` is the choice of the `n` best of `scores`: it lists, in
/// document order, `n` indices (or all of them, if there are fewer), each
/// of which outranks every index left out.
pub open spec fn is_top(scores: Seq<u64>, n: nat, picked: Seq<usize>) -> bool {
    &&& picked.len() == if n <= scores.len() {
        n
    } else {
        scores.len()
    }
    &&& forall|a: int| 0 <= a < picked.len() ==> #[trigger] picked[a] < scores.len()
    &&& ascending(picked)
    &&& forall|a: int, j: int|
        0 <= a < picked.len() && 0 <= j < scores.len() && !picked.contains(j as usize)
            ==> #[trigger] outranks(scores, picked[a] as int, j)
}

/// The choice of the `n` best of `scores`.
pub open spec fn top(scores: Seq<u64>, n: nat) -> Seq<usize> {
    choose|picked: Seq<usize>| is_top(scores, n, picked)
}

/// How many entries of `marks` are set.
spec fn count_set(marks: Seq<bool>) -> nat
    decreases marks.len(),
{
    if marks.len() == 0 {
        0
    } else {
        count_set(marks.drop_last()) + if marks.last() {
            1nat
        } else {
            0nat
        }
    }
}

/// The places at which `marks` is set, in rising order.
spec fn picks(marks: Seq<bool>) -> Seq<usize>
    decreases marks.len(),
{
    if marks.len() == 0 {
        Seq::empty()
    } else if marks.last() {
        picks(marks.drop_last()).push((marks.len() - 1) as usize)
    } else {
        picks(marks.drop_last())
    }
}

/// Whether every marked sentence outranks every sentence that is not
/// marked.
spec fn closed_up(scores: Seq<u64>, marks: Seq<bool>) -> bool {
    forall|i: int, j: int|
        0 <= i < marks.len() && 0 <= j < marks.len() && marks[i] && !marks[j] ==> outranks(
            scores,
            i,
            j,
        )
}

proof fn lemma_count_bound(marks: Seq<bool>)
    ensures
        count_set(marks) <= marks.len(),
        count_set(marks) == marks.len() <==> forall|i: int| 0 <= i < marks.len() ==> marks[i],
    decreases marks.len(),
{
    if marks.len() > 0 {
        let front = marks.drop_last();
        lemma_count_bound(front);
        if forall|i: int| 0 <= i < marks.len() ==> marks[i] {
            assert forall|i: int| 0 <= i < front.len() implies front[i] by {
                assert(front[i] == marks[i]);
            }
            assert(marks[marks.len() - 1]);
        }
        if count_set(marks) == marks.len() {
            assert forall|i: int| 0 <= i < marks.len() implies marks[i] by {
                if i < front.len() {
                    assert(front[i] == marks[i]);
                }
            }
        }
    }
}

proof fn lemma_count_none(marks: Seq<bool>)
    requires
        forall|i: int| 0 <= i < marks.len() ==> !marks[i],
    ensures
        count_set(marks) == 0,
    decreases marks.len(),
{
    if marks.len() > 0 {
        let front = marks.drop_last();
        assert forall|i: int| 0 <= i < front.len() implies !front[i] by {
            assert(front[i] == marks[i]);
        }
        lemma_count_none(front);
        assert(!marks[marks.len() - 1]);
    }
}

proof fn lemma_count_mark(marks: Seq<bool>, i: int)
    requires
        0 <= i < marks.len(),
        !marks[i],
    ensures
        count_set(marks.update(i, true)) == count_set(marks) + 1,
    decreases marks.len(),
{
    let marked = marks.update(i, true);
    if i == marks.len() - 1 {
        assert(marked.drop_last() =~= marks.drop_last());
    } else {
        assert(marked.drop_last() =~= marks.drop_last().update(i, true));
        lemma_count_mark(marks.drop_last(), i);
    }
}

proof fn lemma_picks(marks: Seq<bool>)
    requires
        marks.len() <= usize::MAX,
    ensures
        picks(marks).len() == count_set(marks),
        ascending(picks(marks)),
        forall|a: int|
            0 <= a < picks(marks).len() ==> #[trigger] picks(marks)[a] < marks.len()
                && marks[picks(marks)[a] as int],
        forall|j: int| 0 <= j < marks.len() && marks[j] ==> picks(marks).contains(j as usize),
    decreases marks.len(),
{
    if marks.len() > 0 {
        let front = marks.drop_last();
        let last = marks.len() - 1;
        lemma_picks(front);
        let p = picks(marks);
        let q = picks(front);
        assert forall|a: int| 0 <= a < p.len() implies #[trigger] p[a] < marks.len()
            && marks[p[a] as int] by {
            if a < q.len() {
                assert(p[a] == q[a]);
                assert(front[q[a] as int] == marks[q[a] as int]);
            }
        }
        assert forall|a: int, b: int| 0 <= a < b < p.len() implies p[a] < p[b] by {
            assert(p[a] == q[a]);
            if b < q.len() {
                assert(p[b] == q[b]);
            }
        }
        assert forall|j: int| 0 <= j < marks.len() && marks[j] implies p.contains(j as usize) by {
            if j < last {
                assert(front[j]);
                let a = q.index_of(j as usize);
                assert(p[a] == j as usize);
            } else {
                assert(p[p.len() - 1] == j as usize);
            }
        }
    }
}

proof fn lemma_best_unmarked(scores: Seq<u64>, marks: Seq<bool>, upto: int) -> (best: int)
    requires
        0 <= upto <= marks.len(),
        exists|j: int| 0 <= j < upto && !marks[j],
    ensures
        0 <= best < upto,
        !marks[best],
        forall|j: int| 0 <= j < upto && !marks[j] ==> best == j || outranks(scores, best, j),
    decreases upto,
{
    let last = upto - 1;
    if exists|j: int| 0 <= j < last && !marks[j] {
        let before = lemma_best_unmarked(scores, marks, last);
        if !marks[last] && scores[last] > scores[before] {
            last
        } else {
            before
        }
    } else {
        last
    }
}

proof fn lemma_marks_exist(scores: Seq<u64>, k: nat) -> (marks: Seq<bool>)
    requires
        k <= scores.len(),
    ensures
        marks.len() == scores.len(),
        count_set(marks) == k,
        closed_up(scores, marks),
    decreases k,
{
    if k == 0 {
        let marks = Seq::new(scores.len(), |i: int| false);
        lemma_count_none(marks);
        marks
    } else {
        let fewer = lemma_marks_exist(scores, (k - 1) as nat);
        lemma_count_bound(fewer);
        let best = lemma_best_unmarked(scores, fewer, fewer.len() as int);
        lemma_count_mark(fewer, best);
        fewer.update(best, true)
    }
}

proof fn lemma_marks_top(scores: Seq<u64>, n: nat, marks: Seq<bool>)
    requires
        marks.len() == scores.len(),
        scores.len() <= usize::MAX,
        closed_up(scores, marks),
        count_set(marks) == if n <= scores.len() {
            n
        } else {
            scores.len()
        },
    ensures
        is_top(scores, n, picks(marks)),
{
    lemma_picks(marks);
    let p = picks(marks);
    assert forall|a: int, j: int|
        0 <= a < p.len() && 0 <= j < scores.len() && !p.contains(
            j as usize,
        ) implies #[trigger] outranks(scores, p[a] as int, j) by {
        assert(marks[p[a] as int]);
    }
}

/// Indices that rise strictly are all different.
pub proof fn lemma_ascending_distinct(picked: Seq<usize>)
    requires
        ascending(picked),
    ensures
        picked.no_duplicates(),
{
    assert forall|a: int, b: int|
        0 <= a < picked.len() && 0 <= b < picked.len() && a != b implies picked[a]
        != picked[b] by {
        if a < b {
            assert(picked[a] < picked[b]);
        } else {
            assert(picked[b] < picked[a]);
        }
    }
}

proof fn lemma_ascending_equal(p: Seq<usize>, q: Seq<usize>)
    requires
        ascending(p),
        ascending(q),
        p.len() == q.len(),
        forall|x: usize| p.contains(x) <==> q.contains(x),
    ensures
        p == q,
    decreases p.len(),
{
    if p.len() == 0 {
        assert(p =~= q);
    } else {
        let last = p.len() - 1;
        assert(p.contains(p[last]));
        assert(q.contains(q[last]));
        let b = q.index_of(p[last]);
        let a = p.index_of(q[last]);
        assert(p[last] == q[last]) by {
            if b < last {
                assert(q[b] < q[last]);
            }
            if a < last {
                assert(p[a] < p[last]);
            }
        }
        let pf = p.drop_last();
        let qf = q.drop_last();
        assert forall|x: usize| pf.contains(x) <==> qf.contains(x) by {
            if pf.contains(x) {
                let i = pf.index_of(x);
                assert(p[i] == x);
                assert(p[i] < p[last]);
                assert(p.contains(x));
                let j = q.index_of(x);
                assert(qf[j] == x);
            }
            if qf.contains(x) {
                let i = qf.index_of(x);
                assert(q[i] == x);
                assert(q[i] < q[last]);
                assert(q.contains(x));
                let j = p.index_of(x);
                assert(pf[j] == x);
            }
        }
        lemma_ascending_equal(pf, qf);
        assert(p =~= pf.push(p[last]));
        assert(q =~= qf.push(q[last]));
    }
}

proof fn lemma_top_within(scores: Seq<u64>, n: nat, p: Seq<usize>, q: Seq<usize>)
    requires
        is_top(scores, n, p),
        is_top(scores, n, q),
    ensures
        forall|x: usize| p.contains(x) ==> q.contains(x),
{
    assert forall|x: usize| p.contains(x) implies q.contains(x) by {
        if !q.contains(x) {
            let a = p.index_of(x);
            let rest = p.to_set().remove(x);
            assert(q.to_set().subset_of(rest)) by {
                assert forall|y: usize| q.to_set().contains(y) implies rest.contains(y) by {
                    let b = q.index_of(y);
                    assert(q[b] == y);
                    assert(outranks(scores, q[b] as int, x as int));
                    if !p.contains(y) {
                        assert(outranks(scores, p[a] as int, y as int));
                    }
                }
            }
            lemma_ascending_distinct(p);
            lemma_ascending_distinct(q);
            p.unique_seq_to_set();
            q.unique_seq_to_set();
            vstd::seq_lib::seq_to_set_is_finite(p);
            assert(p.to_set().contains(x));
            lemma_len_subset(q.to_set(), rest);
        }
    }
}

/// Only one choice is the choice of the `n` best: scores and count decide
/// it.
pub proof fn lemma_top_unique(scores: Seq<u64>, n: nat, p: Seq<usize>, q: Seq<usize>)
    requires
        is_top(scores, n, p),
        is_top(scores, n, q),
    ensures
        p == q,
{
    lemma_top_within(scores, n, p, q);
    lemma_top_within(scores, n, q, p);
    lemma_ascending_equal(p, q);
}

/// There is a choice of the `n` best for all scores and every `n`, and
/// `top` is that choice.
pub proof fn lemma_top_exists(scores: Seq<u64>, n: nat)
    requires
        scores.len() <= usize::MAX,
    ensures
        is_top(scores, n, top(scores, n)),
{
    let k = if n <= scores.len() {
        n
    } else {
        scores.len()
    };
    let marks = lemma_marks_exist(scores, k);
    lemma_marks_top(scores, n, marks);
}

/// Asking for as many sentences as there are, or for more, chooses every
/// sentence, each once and in document order.
pub proof fn lemma_top_all(scores: Seq<u64>, n: nat)
    requires
        scores.len() <= usize::MAX,
        n >= scores.len(),
    ensures
        is_top(scores, n, all_indices(scores.len())),
        top(scores, n) == all_indices(scores.len()),
{
    let everything = all_indices(scores.len());
    assert forall|a: int, j: int|
        0 <= a < everything.len() && 0 <= j < scores.len() && !everything.contains(
            j as usize,
        ) implies #[trigger] outranks(scores, everything[a] as int, j) by {
        assert(everything[j] == j as usize);
    }
    assert(is_top(scores, n, everything));
    lemma_top_unique(scores, n, everything, top(scores, n));
}

/// Asking for no sentence chooses none.
pub proof fn lemma_top_none(scores: Seq<u64>)
    ensures
        is_top(scores, 0, Seq::empty()),
        top(scores, 0) == Seq::<usize>::empty(),
{
    let nothing = Seq::<usize>::empty();
    assert(is_top(scores, 0, nothing));
    lemma_top_unique(scores, 0, nothing, top(scores, 0));
}

/// The `n` best of `scores`, or all of them if there are fewer, in document
/// order. The best is taken out of the pool again and again; among equal
/// scores the earliest in the document goes first.
pub fn max_n(scores: &Vec<u64>, n: usize) -> (picked: Vec<usize>)
    ensures
        is_top(scores@, n as nat, picked@),
        picked@ == top(scores@, n as nat),
        n >= scores.len() ==> picked@ == all_indices(scores@.len()),
{
    let total = scores.len();
    let rounds = if n < total {
        n
    } else {
        total
    };
    let mut taken: Vec<bool> = Vec::new();
    while taken.len() < total
        invariant
            taken.len() <= total,
            forall|i: int| 0 <= i < taken.len() ==> !taken@[i],
        decreases total - taken.len(),
    {
        taken.push(false);
    }
    proof {
        lemma_count_none(taken@);
    }
    let mut done: usize = 0;
    while done < rounds
        invariant
            total == scores.len(),
            taken.len() == total,
            done <= rounds <= total,
            count_set(taken@) == done,
            closed_up(scores@, taken@),
        decreases rounds - done,
    {
        let mut best: usize = total;
        let mut i: usize = 0;
        while i < total
            invariant
                total == scores.len(),
                taken.len() == total,
                i <= total,
                best <= total,
                best < total ==> best < i && !taken@[best as int],
                forall|j: int|
                    0 <= j < i && !taken@[j] ==> best < total && (best == j || outranks(
                        scores@,
                        best as int,
                        j,
                    )),
            decreases total - i,
        {
            if !taken[i] && (best == total || scores[i] > scores[best]) {
                best = i;
            }
            i += 1;
        }
        proof {
            lemma_count_bound(taken@);
            lemma_count_mark(taken@, best as int);
        }
        taken.set(best, true);
        done += 1;
    }
    let mut picked: Vec<usize> = Vec::new();
    let mut i: usize = 0;
    proof {
        assert(taken@.take(0) =~= Seq::<bool>::empty());
    }
    while i < total
        invariant
            taken.len() == total,
            i <= total,
            picked@ == picks(taken@.take(i as int)),
        decreases total - i,
    {
        proof {
            assert(taken@.take(i + 1).drop_last() =~= taken@.take(i as int));
        }
        if taken[i] {
            picked.push(i);
        }
        i += 1;
    }
    proof {
        assert(taken@.take(total as int) =~= taken@);
        lemma_marks_top(scores@, n as nat, taken@);
        lemma_top_unique(scores@, n as nat, picked@, top(scores@, n as nat));
        if n >= scores.len() {
            lemma_top_all(scores@, n as nat);
        }
    }
    picked
}

} // verus!
