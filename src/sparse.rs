//! Sparse ternary vectors and the sorted-set algebra over their supports.

use vstd::prelude::*;

verus! {

/// A ternary vector given by its support: `pos` holds the dimensions with
/// value +1, `neg` those with value -1; every other dimension is 0.
///
/// The type does not enforce its invariants (see `SparseVec::is_canonical`):
/// vectors read back from an engine under test may break them, and the
/// validator is there to notice.
#[derive(Clone, Debug)]
pub struct SparseVec {
    pub pos: Vec<usize>,
    pub neg: Vec<usize>,
}

/// Each element is smaller than the next.
pub open spec fn strictly_increasing(s: Seq<usize>) -> bool {
    forall|i: int, j: int| 0 <= i < j < s.len() ==> s[i] < s[j]
}

/// No index occurs in both sequences.
pub open spec fn disjoint(a: Seq<usize>, b: Seq<usize>) -> bool {
    forall|i: int, j: int| 0 <= i < a.len() && 0 <= j < b.len() ==> a[i] != b[j]
}

/// Every element lies below `dim`.
pub open spec fn all_below(s: Seq<usize>, dim: nat) -> bool {
    forall|i: int| 0 <= i < s.len() ==> s[i] < dim
}

/// Number of values common to two sequences, counted as sets.
pub open spec fn overlap(a: Seq<usize>, b: Seq<usize>) -> int {
    a.to_set().intersect(b.to_set()).len() as int
}

/// The ternary dot product of two supports:
/// `(|P∩P'| + |N∩N'|) - (|P∩N'| + |N∩P'|)`.
pub open spec fn dot(ap: Seq<usize>, an: Seq<usize>, bp: Seq<usize>, bn: Seq<usize>) -> int {
    (overlap(ap, bp) + overlap(an, bn)) - (overlap(ap, bn) + overlap(an, bp))
}

impl SparseVec {
    /// Both supports are strictly increasing and disjoint.
    pub open spec fn is_sorted_disjoint(&self) -> bool {
        &&& strictly_increasing(self.pos@)
        &&& strictly_increasing(self.neg@)
        &&& disjoint(self.pos@, self.neg@)
    }

    /// The invariants of a vector over `dim` dimensions.
    pub open spec fn is_canonical(&self, dim: nat) -> bool {
        &&& self.is_sorted_disjoint()
        &&& all_below(self.pos@, dim)
        &&& all_below(self.neg@, dim)
    }

    /// Number of non-zero dimensions.
    pub open spec fn nnz(&self) -> nat {
        self.pos@.len() + self.neg@.len()
    }
}

proof fn lemma_overlap_step_new(a: Seq<usize>, b: Seq<usize>, i: int)
    requires
        0 <= i < a.len(),
        strictly_increasing(a),
    ensures
        a.take(i + 1).to_set().intersect(b.to_set()) == (if b.contains(a[i]) {
            a.take(i).to_set().intersect(b.to_set()).insert(a[i])
        } else {
            a.take(i).to_set().intersect(b.to_set())
        }),
        !a.take(i).to_set().contains(a[i]),
{
    assert(a.take(i + 1) == a.take(i).push(a[i]));
    assert(a.take(i + 1).to_set() == a.take(i).to_set().insert(a[i])) by {
        a.take(i).lemma_push_to_set_commute(a[i]);
    }
    assert(b.contains(a[i]) <==> b.to_set().contains(a[i]));
    if b.contains(a[i]) {
        assert(a.take(i + 1).to_set().intersect(b.to_set()) =~= a.take(i).to_set().intersect(
            b.to_set(),
        ).insert(a[i]));
    } else {
        assert(a.take(i + 1).to_set().intersect(b.to_set()) =~= a.take(i).to_set().intersect(
            b.to_set(),
        ));
    }
    if a.take(i).to_set().contains(a[i]) {
        let k = choose|k: int| 0 <= k < a.take(i).len() && a.take(i)[k] == a[i];
        assert(a[k] < a[i]);
    }
}

/// Counts the values common to two ascending sequences by a two-pointer
/// merge, in `O(|a| + |b|)` steps.
pub fn intersection_count_sorted(a: &[usize], b: &[usize]) -> (r: usize)
    requires
        strictly_increasing(a@),
        strictly_increasing(b@),
    ensures
        r as int == overlap(a@, b@),
{
    let mut i: usize = 0;
    let mut j: usize = 0;
    let mut count: usize = 0;
    proof {
        assert(a@.take(0).to_set() =~= Set::<usize>::empty());
        assert(a@.take(0).to_set().intersect(b@.to_set()) =~= Set::<usize>::empty());
    }
    while i < a.len() && j < b.len()
        invariant
            strictly_increasing(a@),
            strictly_increasing(b@),
            0 <= i <= a.len(),
            0 <= j <= b.len(),
            count <= i,
            count as int == a@.take(i as int).to_set().intersect(b@.to_set()).len(),
            forall|p: int, q: int| 0 <= p < i && j <= q < b.len() ==> a[p] < b[q],
            forall|p: int, q: int| 0 <= q < j && i <= p < a.len() ==> b[q] < a[p],
        decreases a.len() - i + b.len() - j,
    {
        let x = a[i];
        let y = b[j];
        proof {
            lemma_overlap_step_new(a@, b@, i as int);
            vstd::seq_lib::seq_to_set_is_finite(a@.take(i as int));
        }
        if x < y {
            proof {
                if b@.contains(x) {
                    let q = choose|q: int| 0 <= q < b.len() && b[q] == x;
                    if q < j {
                        assert(b[q] < a[i as int]);
                    } else {
                        assert(b[j as int] <= b[q]);
                    }
                }
            }
            i = i + 1;
        } else if y < x {
            proof {
                assert(a@.take(i as int + 1) == a@.take(i as int).push(a[i as int]));
            }
            j = j + 1;
        } else {
            proof {
                assert(b@.contains(x));
            }
            count = count + 1;
            i = i + 1;
            j = j + 1;
        }
    }
    proof {
        if i < a.len() {
            assert forall|x: usize| a@.to_set().intersect(b@.to_set()).contains(x) implies a@.take(
                i as int,
            ).to_set().intersect(b@.to_set()).contains(x) by {
                let p = choose|p: int| 0 <= p < a.len() && a[p] == x;
                let q = choose|q: int| 0 <= q < b.len() && b[q] == x;
                if p >= i {
                    assert(b[q] < a[p]);
                }
                assert(a@.take(i as int)[p] == x);
            }
            assert(a@.to_set().intersect(b@.to_set()) =~= a@.take(i as int).to_set().intersect(
                b@.to_set(),
            ));
        } else {
            assert(a@.take(i as int) == a@);
        }
    }
    count
}

/// The ternary dot product of two sparse vectors whose supports are sorted.
pub fn sparse_dot(a: &SparseVec, b: &SparseVec) -> (r: i32)
    requires
        strictly_increasing(a.pos@),
        strictly_increasing(a.neg@),
        strictly_increasing(b.pos@),
        strictly_increasing(b.neg@),
        a.nnz() <= i32::MAX,
    ensures
        r as int == dot(a.pos@, a.neg@, b.pos@, b.neg@),
{
    let pp = intersection_count_sorted(a.pos.as_slice(), b.pos.as_slice());
    let nn = intersection_count_sorted(a.neg.as_slice(), b.neg.as_slice());
    let pn = intersection_count_sorted(a.pos.as_slice(), b.neg.as_slice());
    let np = intersection_count_sorted(a.neg.as_slice(), b.pos.as_slice());
    proof {
        lemma_overlap_le_len(a.pos@, b.pos@);
        lemma_overlap_le_len(a.neg@, b.neg@);
        lemma_overlap_le_len(a.pos@, b.neg@);
        lemma_overlap_le_len(a.neg@, b.pos@);
    }
    let plus = pp as i32 + nn as i32;
    let minus = pn as i32 + np as i32;
    plus - minus
}

proof fn lemma_overlap_le_len(a: Seq<usize>, b: Seq<usize>)
    ensures
        overlap(a, b) <= a.len(),
{
    vstd::seq_lib::seq_to_set_is_finite(a);
    a.lemma_cardinality_of_set();
    vstd::set_lib::lemma_len_intersect(a.to_set(), b.to_set());
}

/// The dot product is symmetric: `dot(A, B) == dot(B, A)` for every pair.
pub proof fn lemma_sparse_dot_symmetric(a: SparseVec, b: SparseVec)
    ensures
        dot(a.pos@, a.neg@, b.pos@, b.neg@) == dot(b.pos@, b.neg@, a.pos@, a.neg@),
{
    assert forall|x: Seq<usize>, y: Seq<usize>| overlap(x, y) == overlap(y, x) by {
        assert(x.to_set().intersect(y.to_set()) =~= y.to_set().intersect(x.to_set()));
    }
}

/// A canonical vector with as many non-zero dimensions as the space has
/// uses every dimension: `set(pos) ∪ set(neg) == {0, .., dim - 1}`.
pub proof fn lemma_full_vector_covers(v: SparseVec, dim: usize)
    requires
        v.is_canonical(dim as nat),
        v.nnz() == dim,
    ensures
        forall|x: usize| x < dim ==> v.pos@.contains(x) || v.neg@.contains(x),
{
    let s = v.pos@ + v.neg@;
    assert(s.no_duplicates()) by {
        assert forall|i: int, j: int| 0 <= i < j < s.len() implies s[i] != s[j] by {
            let n = v.pos@.len() as int;
            if j < n {
                assert(v.pos@[i] < v.pos@[j]);
            } else if i >= n {
                assert(v.neg@[i - n] < v.neg@[j - n]);
            } else {
                assert(s[i] == v.pos@[i] && s[j] == v.neg@[j - n]);
            }
        }
    }
    s.unique_seq_to_set();
    let r = Seq::new(dim as nat, |i: int| i as usize);
    assert(r.no_duplicates());
    r.unique_seq_to_set();
    vstd::seq_lib::seq_to_set_is_finite(s);
    vstd::seq_lib::seq_to_set_is_finite(r);
    assert forall|x: usize| s.to_set().contains(x) implies r.to_set().contains(x) by {
        let k = choose|k: int| 0 <= k < s.len() && s[k] == x;
        if k < v.pos@.len() {
            assert(v.pos@[k] == x);
        } else {
            assert(v.neg@[k - v.pos@.len()] == x);
        }
        assert(r[x as int] == x);
    }
    vstd::set_lib::lemma_subset_equality(s.to_set(), r.to_set());
    assert forall|x: usize| x < dim implies v.pos@.contains(x) || v.neg@.contains(x) by {
        assert(r[x as int] == x);
        assert(r.to_set().contains(x));
        assert(s.contains(x));
        let k = choose|k: int| 0 <= k < s.len() && s[k] == x;
        if k < v.pos@.len() {
            assert(v.pos@[k] == x);
        } else {
            assert(v.neg@[k - v.pos@.len()] == x);
        }
    }
}

} // verus!
