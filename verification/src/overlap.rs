//! The links between sentences: how many distinct tokens two of them share.

use std::collections::HashSet;
use vstd::prelude::*;

verus! {

/// How many distinct tokens two sentences share. A token that is repeated
/// within a sentence counts once.
pub open spec fn common(a: Seq<usize>, b: Seq<usize>) -> nat {
    a.to_set().intersect(b.to_set()).len()
}

/// The weight of the link between sentences `i` and `j`: the number of
/// distinct tokens they share. A sentence is not linked to itself, and two
/// sentences of a single token each are not linked either.
pub open spec fn overlap(sequences: Seq<Seq<usize>>, i: int, j: int) -> nat {
    if i == j || (sequences[i].len() == 1 && sequences[j].len() == 1) {
        0
    } else {
        common(sequences[i], sequences[j])
    }
}

/// Whether `matrix` holds the weight of every link between two of the
/// `sequences`.
pub open spec fn is_overlap_matrix(sequences: Seq<Seq<usize>>, matrix: Seq<Seq<usize>>) -> bool {
    &&& matrix.len() == sequences.len()
    &&& forall|i: int| 0 <= i < matrix.len() ==> (#[trigger] matrix[i]).len() == sequences.len()
    &&& forall|i: int, j: int|
        0 <= i < sequences.len() && 0 <= j < sequences.len() ==> #[trigger] matrix[i][j] as nat
            == overlap(sequences, i, j)
}

/// Two sentences share the same tokens whichever is named first.
pub proof fn lemma_common_symmetric(a: Seq<usize>, b: Seq<usize>)
    ensures
        common(a, b) == common(b, a),
{
    assert(a.to_set().intersect(b.to_set()) =~= b.to_set().intersect(a.to_set()));
}

/// Two sentences share no more distinct tokens than either of them has
/// tokens.
pub proof fn lemma_common_bound(a: Seq<usize>, b: Seq<usize>)
    ensures
        common(a, b) <= a.len(),
        common(a, b) <= b.len(),
{
    vstd::seq_lib::seq_to_set_is_finite(a);
    vstd::seq_lib::seq_to_set_is_finite(b);
    a.lemma_cardinality_of_set();
    b.lemma_cardinality_of_set();
    vstd::set_lib::lemma_len_subset(a.to_set().intersect(b.to_set()), a.to_set());
    vstd::set_lib::lemma_len_subset(a.to_set().intersect(b.to_set()), b.to_set());
}

/// The links are symmetric, and no sentence is linked to itself.
pub proof fn lemma_overlap_symmetric(sequences: Seq<Seq<usize>>, i: int, j: int)
    ensures
        overlap(sequences, i, i) == 0,
        overlap(sequences, i, j) == overlap(sequences, j, i),
{
    lemma_common_symmetric(sequences[i], sequences[j]);
}

/// Where two sentences are linked, both have tokens and at least one of
/// them has more than one: the sum of the logarithms of their lengths is
/// then positive.
pub proof fn lemma_overlap_defined(sequences: Seq<Seq<usize>>, i: int, j: int)
    requires
        overlap(sequences, i, j) > 0,
    ensures
        i != j,
        sequences[i].len() >= 1,
        sequences[j].len() >= 1,
        sequences[i].len() * sequences[j].len() >= 2,
{
    lemma_common_bound(sequences[i], sequences[j]);
    let a = sequences[i].len();
    let b = sequences[j].len();
    assert(a * b >= 2) by (nonlinear_arith)
        requires
            a >= 1,
            b >= 1,
            a + b >= 3,
    ;
}

/// The number of distinct tokens that `a` and `b` share.
pub fn common_tokens(a: &Vec<usize>, b: &Vec<usize>) -> (count: usize)
    ensures
        count == common(a@, b@),
{
    broadcast use vstd::std_specs::hash::group_hash_axioms;

    let mut left: HashSet<usize> = HashSet::new();
    let mut i: usize = 0;
    while i < a.len()
        invariant
            i <= a.len(),
            left@ == a@.take(i as int).to_set(),
        decreases a.len() - i,
    {
        left.insert(a[i]);
        proof {
            assert(a@.take(i + 1) =~= a@.take(i as int).push(a@[i as int]));
            a@.take(i as int).lemma_push_to_set_commute(a@[i as int]);
        }
        i += 1;
    }
    let mut shared: HashSet<usize> = HashSet::new();
    let mut j: usize = 0;
    while j < b.len()
        invariant
            j <= b.len(),
            left@ == a@.take(a.len() as int).to_set(),
            shared@ == left@.intersect(b@.take(j as int).to_set()),
        decreases b.len() - j,
    {
        proof {
            assert(b@.take(j + 1) =~= b@.take(j as int).push(b@[j as int]));
            b@.take(j as int).lemma_push_to_set_commute(b@[j as int]);
        }
        if left.contains(&b[j]) {
            shared.insert(b[j]);
            proof {
                assert(shared@ =~= left@.intersect(b@.take(j + 1).to_set()));
            }
        } else {
            proof {
                assert(shared@ =~= left@.intersect(b@.take(j + 1).to_set()));
            }
        }
        j += 1;
    }
    proof {
        assert(a@.take(a.len() as int) =~= a@);
        assert(b@.take(b.len() as int) =~= b@);
    }
    shared.len()
}

/// The weight of the link between every two of the `sequences`: the entry
/// in row `i` and column `j` is `overlap(.., i, j)`.
///
/// The work grows with the square of the number of sentences.
pub fn overlap_matrix(sequences: &Vec<Vec<usize>>) -> (matrix: Vec<Vec<usize>>)
    ensures
        is_overlap_matrix(sequences.deep_view(), matrix.deep_view()),
        forall|i: int| 0 <= i < matrix.len() ==> (#[trigger] matrix@[i])@[i] == 0,
        forall|i: int, j: int|
            0 <= i < matrix.len() && 0 <= j < matrix.len() ==> #[trigger] matrix@[i]@[j]
                == matrix@[j]@[i],
{
    let ghost model = sequences.deep_view();
    let total = sequences.len();
    let mut matrix: Vec<Vec<usize>> = Vec::new();
    let mut i: usize = 0;
    while i < total
        invariant
            total == sequences.len(),
            model == sequences.deep_view(),
            i <= total,
            matrix.len() == i,
            forall|r: int| 0 <= r < i ==> (#[trigger] matrix@[r])@.len() == total,
            forall|r: int, c: int|
                0 <= r < i && 0 <= c < total ==> #[trigger] matrix@[r]@[c] as nat == overlap(
                    model,
                    r,
                    c,
                ),
        decreases total - i,
    {
        let mut row: Vec<usize> = Vec::new();
        let mut j: usize = 0;
        while j < total
            invariant
                total == sequences.len(),
                model == sequences.deep_view(),
                i < total,
                j <= total,
                matrix.len() == i,
                forall|r: int| 0 <= r < i ==> (#[trigger] matrix@[r])@.len() == total,
                forall|r: int, c: int|
                    0 <= r < i && 0 <= c < total ==> #[trigger] matrix@[r]@[c] as nat == overlap(
                        model,
                        r,
                        c,
                    ),
                row.len() == j,
                forall|c: int|
                    0 <= c < j ==> #[trigger] row@[c] as nat == overlap(model, i as int, c),
            decreases total - j,
        {
            proof {
                assert(model[i as int] == sequences@[i as int]@);
                assert(model[j as int] == sequences@[j as int]@);
                lemma_overlap_symmetric(model, i as int, j as int);
            }
            let weight = if j < i {
                matrix[j][i]
            } else if j == i || (sequences[i].len() == 1 && sequences[j].len() == 1) {
                0
            } else {
                common_tokens(&sequences[i], &sequences[j])
            };
            row.push(weight);
            j += 1;
        }
        matrix.push(row);
        i += 1;
    }
    proof {
        let cells = matrix.deep_view();
        assert forall|r: int| 0 <= r < cells.len() implies (#[trigger] cells[r]).len()
            == model.len() by {
            assert(cells[r] == matrix@[r]@);
        }
        assert forall|r: int, c: int|
            0 <= r < model.len() && 0 <= c < model.len() implies #[trigger] cells[r][c] as nat
            == overlap(model, r, c) by {
            assert(cells[r] == matrix@[r]@);
            assert(matrix@[r]@[c] as nat == overlap(model, r, c));
        }
        assert forall|r: int| 0 <= r < matrix.len() implies (#[trigger] matrix@[r])@[r] == 0 by {
            assert(matrix@[r]@[r] as nat == overlap(model, r, r));
        }
        assert forall|r: int, c: int|
            0 <= r < matrix.len() && 0 <= c < matrix.len() implies #[trigger] matrix@[r]@[c]
            == matrix@[c]@[r] by {
            lemma_overlap_symmetric(model, r, c);
            assert(matrix@[r]@[c] as nat == overlap(model, r, c));
            assert(matrix@[c]@[r] as nat == overlap(model, c, r));
        }
    }
    matrix
}

} // verus!
