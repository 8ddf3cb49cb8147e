//! Generators of test inputs: sparse vectors drawn by rejection sampling,
//! either from a seeded random source or from the crate's own recurrence,
//! and reproducible byte patterns.

use crate::lcg::{lcg_step, state_after};
use crate::sparse::{all_below, strictly_increasing, SparseVec};
use rand::rngs::StdRng;
use std::collections::HashSet;
use vstd::prelude::*;

verus! {

broadcast use vstd::std_specs::hash::group_hash_axioms;

/// Why a sparse vector could not be generated.
#[derive(Clone, Copy, Debug, PartialEq, Eq, Structural)]
pub enum SparseGenError {
    /// More non-zero dimensions were asked for than the space has.
    SparsityExceedsDims,
    /// The draw budget ran out before enough distinct indices came up.
    DrawLimitReached,
}

/// Largest number of indices a generator draws before giving up.
pub const MAX_DRAWS: u64 = 0xFFFF_FFFF_FFFF_FFFF;

#[verifier::external_type_specification]
#[verifier::external_body]
pub struct ExStdRng(StdRng);

/// Relies on `rand::Rng::random_range` over `0..n`: a value drawn from the
/// half-open range, which it documents to panic only when the range is empty.
#[verifier::external_body]
fn draw_below(rng: &mut StdRng, n: usize) -> (r: usize)
    requires
        n > 0,
    ensures
        r < n,
{
    rand::Rng::random_range(rng, 0..n)
}

/// Relies on `slice::sort_unstable`: the elements in ascending order, as a
/// permutation of the input.
#[verifier::external_body]
fn sort_ascending(v: &mut Vec<usize>)
    ensures
        final(v)@.to_multiset() == old(v)@.to_multiset(),
        forall|i: int, j: int| 0 <= i < j < final(v)@.len() ==> final(v)@[i] <= final(v)@[j],
{
    v.sort_unstable();
}

/// The distinct values of `s`, in order of first appearance.
pub open spec fn distinct_firsts(s: Seq<usize>) -> Seq<usize>
    decreases s.len(),
{
    if s.len() == 0 {
        Seq::empty()
    } else {
        let prev = distinct_firsts(s.drop_last());
        if prev.contains(s.last()) {
            prev
        } else {
            prev.push(s.last())
        }
    }
}

/// The `k`-th index (from 0) that the recurrence seeded with `seed`
/// proposes in a space of `dim` dimensions.
pub open spec fn lcg_index(seed: u64, dim: nat, k: nat) -> usize {
    (state_after(seed, k + 1) as nat % dim) as usize
}

/// The first `m` indices proposed from `seed`.
pub open spec fn lcg_candidates(seed: u64, dim: nat, m: nat) -> Seq<usize> {
    Seq::new(m, |k: int| lcg_index(seed, dim, k as nat))
}

/// The distinct indices, in order, that the draw budget yields from `seed`.
pub open spec fn lcg_picks(seed: u64, dim: nat) -> Seq<usize> {
    distinct_firsts(lcg_candidates(seed, dim, MAX_DRAWS as nat))
}

/// `v` is the vector that the seeded generator builds: the first `nnz / 2`
/// picks become `pos`, the next `nnz - nnz / 2` become `neg`, each sorted.
pub open spec fn is_seeded_sample(v: SparseVec, dim: nat, nnz: nat, seed: u64) -> bool {
    let picks = lcg_picks(seed, dim);
    let pc = nnz / 2;
    &&& v.is_canonical(dim)
    &&& v.pos@.to_set() == picks.take(pc as int).to_set()
    &&& v.neg@.to_set() == picks.subrange(pc as int, nnz as int).to_set()
}

proof fn lemma_distinct_firsts_props(s: Seq<usize>)
    ensures
        distinct_firsts(s).no_duplicates(),
        forall|x: usize| distinct_firsts(s).contains(x) <==> s.contains(x),
        distinct_firsts(s).len() <= s.len(),
    decreases s.len(),
{
    if s.len() > 0 {
        let u = s.drop_last();
        lemma_distinct_firsts_props(u);
        let p = distinct_firsts(u);
        assert forall|x: usize| distinct_firsts(s).contains(x) <==> s.contains(x) by {
            if u.contains(x) {
                let i = choose|i: int| 0 <= i < u.len() && u[i] == x;
                assert(s[i] == x);
            }
            if s.contains(x) {
                let i = choose|i: int| 0 <= i < s.len() && s[i] == x;
                if i < s.len() - 1 {
                    assert(u[i] == x);
                }
            }
            if !p.contains(s.last()) {
                assert(p.push(s.last()).contains(x) <==> (p.contains(x) || x == s.last())) by {
                    if p.push(s.last()).contains(x) {
                        let k = choose|k: int| 0 <= k < p.len() + 1 && p.push(s.last())[k] == x;
                        if k < p.len() {
                            assert(p[k] == x);
                        }
                    }
                    if p.contains(x) {
                        let k = choose|k: int| 0 <= k < p.len() && p[k] == x;
                        assert(p.push(s.last())[k] == x);
                    }
                    assert(p.push(s.last())[p.len() as int] == s.last());
                }
            }
        }
        if !p.contains(s.last()) {
            assert forall|i: int, j: int|
                0 <= i < j < p.len() + 1 implies p.push(s.last())[i] != p.push(s.last())[j] by {
                if j == p.len() {
                    assert(p[i] != s.last());
                }
            }
        }
    }
}

proof fn lemma_distinct_firsts_prefix(s: Seq<usize>, t: Seq<usize>)
    requires
        s.len() <= t.len(),
        s == t.take(s.len() as int),
    ensures
        distinct_firsts(s).len() <= distinct_firsts(t).len(),
        distinct_firsts(s) == distinct_firsts(t).take(distinct_firsts(s).len() as int),
    decreases t.len() - s.len(),
{
    if s.len() < t.len() {
        let u = t.drop_last();
        assert(s == u.take(s.len() as int));
        lemma_distinct_firsts_prefix(s, u);
        let du = distinct_firsts(u);
        let ds = distinct_firsts(s);
        assert(distinct_firsts(t).take(du.len() as int) == du);
        assert(distinct_firsts(t).take(ds.len() as int) =~= du.take(ds.len() as int));
    } else {
        assert(s == t);
        assert(distinct_firsts(t).take(distinct_firsts(t).len() as int) =~= distinct_firsts(t));
    }
}

proof fn lemma_sorted_distinct(before: Seq<usize>, after: Seq<usize>)
    requires
        before.no_duplicates(),
        after.to_multiset() == before.to_multiset(),
        forall|i: int, j: int| 0 <= i < j < after.len() ==> after[i] <= after[j],
    ensures
        strictly_increasing(after),
        after.to_set() == before.to_set(),
        after.len() == before.len(),
{
    broadcast use vstd::seq_lib::group_to_multiset_ensures;

    before.lemma_multiset_has_no_duplicates();
    after.lemma_multiset_has_no_duplicates_conv();
    assert forall|x: usize| after.contains(x) <==> before.contains(x) by {
        assert(after.to_multiset().contains(x) <==> after.contains(x));
        assert(before.to_multiset().contains(x) <==> before.contains(x));
    }
    assert(after.to_set() =~= before.to_set());
    assert(after.len() == after.to_multiset().len());
}

/// Two ascending sequences holding the same values are equal.
proof fn lemma_increasing_unique(s: Seq<usize>, t: Seq<usize>)
    requires
        strictly_increasing(s),
        strictly_increasing(t),
        s.to_set() == t.to_set(),
    ensures
        s == t,
    decreases s.len(),
{
    if s.len() == 0 {
        if t.len() > 0 {
            assert(t.to_set().contains(t[0]));
        }
        assert(s =~= t);
    } else if t.len() == 0 {
        assert(s.to_set().contains(s[0]));
    } else {
        let a = s.last();
        let b = t.last();
        assert(t.to_set().contains(a));
        assert(s.to_set().contains(b));
        let i = choose|i: int| 0 <= i < t.len() && t[i] == a;
        let j = choose|j: int| 0 <= j < s.len() && s[j] == b;
        assert(a == b);
        assert forall|x: usize| s.drop_last().to_set().contains(x) <==> t.drop_last().to_set().contains(x) by {
            if s.drop_last().contains(x) {
                let p = choose|p: int| 0 <= p < s.len() - 1 && s[p] == x;
                assert(s[p] == x);
                assert(s.to_set().contains(x));
                assert(t.contains(x));
                let q = choose|q: int| 0 <= q < t.len() && t[q] == x;
                if q == t.len() - 1 {
                    assert(s[p] < s[s.len() - 1]);
                }
                assert(t.drop_last()[q] == x);
            }
            if t.drop_last().contains(x) {
                let q = choose|q: int| 0 <= q < t.len() - 1 && t[q] == x;
                assert(t[q] == x);
                assert(t.to_set().contains(x));
                assert(s.contains(x));
                let p = choose|p: int| 0 <= p < s.len() && s[p] == x;
                if p == s.len() - 1 {
                    assert(t[q] < t[t.len() - 1]);
                }
                assert(s.drop_last()[p] == x);
            }
        }
        assert(s.drop_last().to_set() =~= t.drop_last().to_set());
        lemma_increasing_unique(s.drop_last(), t.drop_last());
        assert(s =~= s.drop_last().push(a));
        assert(t =~= t.drop_last().push(b));
    }
}

/// Seeded generation is reproducible: every vector that the seeded
/// generator may return for `(dim, nnz, seed)` is the same vector.
pub proof fn lemma_seeded_sample_unique(v: SparseVec, w: SparseVec, dim: nat, nnz: nat, seed: u64)
    requires
        is_seeded_sample(v, dim, nnz, seed),
        is_seeded_sample(w, dim, nnz, seed),
    ensures
        v.pos@ == w.pos@,
        v.neg@ == w.neg@,
{
    lemma_increasing_unique(v.pos@, w.pos@);
    lemma_increasing_unique(v.neg@, w.neg@);
}

/// Splitting a duplicate-free sequence into a head and a tail gives two
/// duplicate-free, disjoint parts.
proof fn lemma_split_distinct(picks: Seq<usize>, head: Seq<usize>, tail: Seq<usize>)
    requires
        picks == head + tail,
        picks.no_duplicates(),
    ensures
        head.no_duplicates(),
        tail.no_duplicates(),
        crate::sparse::disjoint(head, tail),
        picks.take(head.len() as int) == head,
        picks.subrange(head.len() as int, picks.len() as int) == tail,
{
    assert(picks.take(head.len() as int) =~= head);
    assert(picks.subrange(head.len() as int, picks.len() as int) =~= tail);
    assert forall|i: int, j: int| 0 <= i < j < head.len() implies head[i] != head[j] by {
        assert(picks[i] == head[i] && picks[j] == head[j]);
    }
    assert forall|i: int, j: int| 0 <= i < j < tail.len() implies tail[i] != tail[j] by {
        assert(picks[head.len() + i] == tail[i] && picks[head.len() + j] == tail[j]);
    }
    assert forall|i: int, j: int| 0 <= i < head.len() && 0 <= j < tail.len() implies head[i]
        != tail[j] by {
        assert(picks[i] == head[i] && picks[head.len() + j] == tail[j]);
    }
}

/// Sorting two disjoint, duplicate-free supports below `d` yields a
/// canonical vector with the same index sets.
proof fn lemma_sorted_pair(pos0: Seq<usize>, neg0: Seq<usize>, v: SparseVec, d: nat)
    requires
        pos0.no_duplicates(),
        neg0.no_duplicates(),
        crate::sparse::disjoint(pos0, neg0),
        all_below(pos0, d),
        all_below(neg0, d),
        v.pos@.to_multiset() == pos0.to_multiset(),
        v.neg@.to_multiset() == neg0.to_multiset(),
        forall|i: int, j: int| 0 <= i < j < v.pos@.len() ==> v.pos@[i] <= v.pos@[j],
        forall|i: int, j: int| 0 <= i < j < v.neg@.len() ==> v.neg@[i] <= v.neg@[j],
    ensures
        v.is_canonical(d),
        v.pos@.to_set() == pos0.to_set(),
        v.neg@.to_set() == neg0.to_set(),
        v.pos@.len() == pos0.len(),
        v.neg@.len() == neg0.len(),
{
    let pos = v.pos@;
    let neg = v.neg@;
    lemma_sorted_distinct(pos0, pos);
    lemma_sorted_distinct(neg0, neg);
    assert forall|i: int| 0 <= i < pos.len() implies pos[i] < d by {
        assert(pos.to_set().contains(pos[i]));
        assert(pos0.contains(pos[i]));
    }
    assert forall|i: int| 0 <= i < neg.len() implies neg[i] < d by {
        assert(neg.to_set().contains(neg[i]));
        assert(neg0.contains(neg[i]));
    }
    assert forall|i: int, j: int| 0 <= i < pos.len() && 0 <= j < neg.len() implies pos[i]
        != neg[j] by {
        assert(pos.to_set().contains(pos[i]));
        assert(neg.to_set().contains(neg[j]));
        assert(pos0.contains(pos[i]));
        assert(neg0.contains(neg[j]));
    }
}

/// Sorts both supports of a freshly sampled vector.
fn sort_supports(pos: Vec<usize>, neg: Vec<usize>, Ghost(d): Ghost<nat>) -> (v: SparseVec)
    requires
        pos@.no_duplicates(),
        neg@.no_duplicates(),
        crate::sparse::disjoint(pos@, neg@),
        all_below(pos@, d),
        all_below(neg@, d),
    ensures
        v.is_canonical(d),
        v.pos@.to_set() == pos@.to_set(),
        v.neg@.to_set() == neg@.to_set(),
        v.pos@.len() == pos@.len(),
        v.neg@.len() == neg@.len(),
{
    let ghost pos0 = pos@;
    let ghost neg0 = neg@;
    let mut pos = pos;
    let mut neg = neg;
    sort_ascending(&mut pos);
    sort_ascending(&mut neg);
    let v = SparseVec { pos, neg };
    proof {
        lemma_sorted_pair(pos0, neg0, v, d);
    }
    v
}

/// Draws from the recurrence until `nnz` distinct indices below `dim` are
/// found or the budget is spent; the first `pos_count` go to the first
/// vector, the rest to the second, in order of appearance.
fn seeded_draws(dim: usize, nnz: usize, pos_count: usize, seed: u64) -> (r: (Vec<usize>, Vec<usize>))
    requires
        0 < dim,
        nnz <= dim,
        pos_count <= nnz,
    ensures
        ({
            let picks = lcg_picks(seed, dim as nat);
            let got = r.0@.len() + r.1@.len();
            &&& got <= nnz
            &&& got < nnz <==> picks.len() < nnz
            &&& got < nnz ==> picks == r.0@ + r.1@
            &&& got == nnz ==> picks.take(nnz as int) == r.0@ + r.1@
            &&& r.1@.len() > 0 ==> r.0@.len() == pos_count
            &&& r.0@.len() <= pos_count
            &&& picks.no_duplicates()
            &&& all_below(r.0@, dim as nat)
            &&& all_below(r.1@, dim as nat)
        }),
{
    let mut state = seed;
    let mut draws: u64 = 0;
    let mut pos: Vec<usize> = Vec::new();
    let mut neg: Vec<usize> = Vec::new();
    let mut used: HashSet<usize> = HashSet::new();
    let ghost d = dim as nat;
    proof {
        assert(lcg_candidates(seed, d, 0) =~= Seq::<usize>::empty());
        assert((pos@ + neg@).to_set() =~= Set::<usize>::empty());
    }
    while pos.len() + neg.len() < nnz && draws < MAX_DRAWS
        invariant
            0 < dim,
            nnz <= dim,
            pos_count <= nnz,
            d == dim as nat,
            state == state_after(seed, draws as nat),
            pos@ + neg@ == distinct_firsts(lcg_candidates(seed, d, draws as nat)),
            used@ == (pos@ + neg@).to_set(),
            pos.len() <= pos_count,
            neg.len() > 0 ==> pos.len() == pos_count,
            pos.len() + neg.len() <= nnz,
            all_below(pos@, d),
            all_below(neg@, d),
        decreases MAX_DRAWS - draws,
    {
        state = lcg_step(state);
        let idx = (state % (dim as u64)) as usize;
        let ghost old_c = lcg_candidates(seed, d, draws as nat);
        let ghost old_pn = pos@ + neg@;
        draws = draws + 1;
        proof {
            let c = lcg_candidates(seed, d, draws as nat);
            assert(idx == lcg_index(seed, d, (draws - 1) as nat));
            assert(c.drop_last() =~= old_c);
            assert(c.last() == idx);
        }
        if used.insert(idx) {
            if pos.len() < pos_count {
                pos.push(idx);
            } else {
                neg.push(idx);
            }
            proof {
                assert(pos@ + neg@ =~= old_pn.push(idx));
                old_pn.lemma_push_to_set_commute(idx);
            }
        }
    }
    proof {
        let c = lcg_candidates(seed, d, draws as nat);
        let full = lcg_candidates(seed, d, MAX_DRAWS as nat);
        assert(c =~= full.take(draws as int));
        lemma_distinct_firsts_prefix(c, full);
        lemma_distinct_firsts_props(full);
        if draws == MAX_DRAWS {
            assert(c =~= full);
        }
    }
    (pos, neg)
}

/// Builds a sparse vector by rejection sampling over the recurrence seeded
/// with `seed`: each step proposes `state % dim`, an index already taken by
/// either polarity is skipped, the first `nnz / 2` new indices become `pos`
/// and the next `nnz - nnz / 2` become `neg` (odd `nnz` favours `neg`).
/// Both supports are returned sorted.
pub fn deterministic_sparse_vec(dim: usize, nnz: usize, seed: u64) -> (r: Result<
    SparseVec,
    SparseGenError,
>)
    ensures
        nnz > dim <==> r == Err::<SparseVec, SparseGenError>(SparseGenError::SparsityExceedsDims),
        r == Err::<SparseVec, SparseGenError>(SparseGenError::DrawLimitReached) <==> (nnz <= dim
            && lcg_picks(seed, dim as nat).len() < nnz),
        r is Ok ==> {
            let v = r->Ok_0;
            &&& is_seeded_sample(v, dim as nat, nnz as nat, seed)
            &&& v.pos@.len() == nnz / 2
            &&& v.neg@.len() == nnz - nnz / 2
        },
{
    if nnz > dim {
        return Err(SparseGenError::SparsityExceedsDims);
    }
    let pos_count = nnz / 2;
    if nnz == 0 {
        let v = SparseVec { pos: Vec::new(), neg: Vec::new() };
        proof {
            assert(lcg_picks(seed, dim as nat).take(0) =~= Seq::<usize>::empty());
            assert(lcg_picks(seed, dim as nat).subrange(0, 0) =~= Seq::<usize>::empty());
        }
        return Ok(v);
    }
    let (pos, neg) = seeded_draws(dim, nnz, pos_count, seed);
    if pos.len() + neg.len() < nnz {
        return Err(SparseGenError::DrawLimitReached);
    }
    let ghost picks = lcg_picks(seed, dim as nat);
    proof {
        let head = picks.take(nnz as int);
        assert(head.no_duplicates()) by {
            assert forall|i: int, j: int| 0 <= i < j < head.len() implies head[i] != head[j] by {
                assert(head[i] == picks[i] && head[j] == picks[j]);
            }
        }
        lemma_split_distinct(head, pos@, neg@);
        assert(picks.take(pos_count as int) =~= head.take(pos_count as int));
        assert(picks.subrange(pos_count as int, nnz as int) =~= head.subrange(
            pos_count as int,
            nnz as int,
        ));
    }
    let v = sort_supports(pos, neg, Ghost(dim as nat));
    Ok(v)
}

/// `v` is what the draws `draws` yield for `sparsity`: the first
/// `sparsity / 2` distinct draws become `pos`, the next `sparsity / 2`
/// become `neg`, each sorted.
pub open spec fn is_draw_split(v: SparseVec, draws: Seq<usize>, dims: nat, sparsity: nat) -> bool {
    let picks = distinct_firsts(draws);
    let t = sparsity / 2;
    &&& v.is_canonical(dims)
    &&& v.pos@.len() == t
    &&& v.neg@.len() == t
    &&& v.pos@.to_set() == picks.take(t as int).to_set()
    &&& v.neg@.to_set() == picks.subrange(t as int, 2 * t as int).to_set()
}

/// Rejection sampling over a given list of drawn indices: an index already
/// taken by either polarity is skipped, the first `sparsity / 2` new ones
/// become `pos` and the next `sparsity / 2` become `neg`; draws past that
/// are not read. Fails when the draws hold too few distinct indices.
pub fn split_draws(draws: &[usize], dims: usize, sparsity: usize) -> (r: Result<
    SparseVec,
    SparseGenError,
>)
    requires
        all_below(draws@, dims as nat),
    ensures
        sparsity > dims <==> r == Err::<SparseVec, SparseGenError>(
            SparseGenError::SparsityExceedsDims,
        ),
        r == Err::<SparseVec, SparseGenError>(SparseGenError::DrawLimitReached) <==> (sparsity
            <= dims && distinct_firsts(draws@).len() < 2 * (sparsity / 2)),
        r is Ok ==> is_draw_split(r->Ok_0, draws@, dims as nat, sparsity as nat),
{
    if sparsity > dims {
        return Err(SparseGenError::SparsityExceedsDims);
    }
    let target = sparsity / 2;
    let needed = 2 * target;
    let mut pos: Vec<usize> = Vec::new();
    let mut neg: Vec<usize> = Vec::new();
    let mut used: HashSet<usize> = HashSet::new();
    let mut i: usize = 0;
    proof {
        assert(draws@.take(0) =~= Seq::<usize>::empty());
        assert((pos@ + neg@).to_set() =~= Set::<usize>::empty());
    }
    while pos.len() + neg.len() < needed && i < draws.len()
        invariant
            needed == 2 * target,
            needed <= dims,
            i <= draws@.len(),
            all_below(draws@, dims as nat),
            pos@ + neg@ == distinct_firsts(draws@.take(i as int)),
            used@ == (pos@ + neg@).to_set(),
            pos.len() <= target,
            neg.len() > 0 ==> pos.len() == target,
            pos.len() + neg.len() <= needed,
            all_below(pos@, dims as nat),
            all_below(neg@, dims as nat),
        decreases draws.len() - i,
    {
        let idx = draws[i];
        let ghost old_pn = pos@ + neg@;
        proof {
            assert(draws@.take(i as int + 1).drop_last() =~= draws@.take(i as int));
            assert(draws@.take(i as int + 1).last() == idx);
        }
        i = i + 1;
        if used.insert(idx) {
            if pos.len() < target {
                pos.push(idx);
            } else {
                neg.push(idx);
            }
            proof {
                assert(pos@ + neg@ =~= old_pn.push(idx));
                old_pn.lemma_push_to_set_commute(idx);
            }
        }
    }
    proof {
        let c = draws@.take(i as int);
        assert(c =~= draws@.take(i as int));
        lemma_distinct_firsts_prefix(c, draws@);
        lemma_distinct_firsts_props(draws@);
        lemma_distinct_firsts_props(c);
        if i == draws.len() {
            assert(c =~= draws@);
        }
    }
    if pos.len() + neg.len() < needed {
        return Err(SparseGenError::DrawLimitReached);
    }
    let ghost picks = distinct_firsts(draws@);
    proof {
        let head = picks.take(needed as int);
        assert(head.no_duplicates()) by {
            assert forall|a: int, b: int| 0 <= a < b < head.len() implies head[a] != head[b] by {
                assert(head[a] == picks[a] && head[b] == picks[b]);
            }
        }
        lemma_split_distinct(head, pos@, neg@);
        assert(picks.take(target as int) =~= head.take(target as int));
        assert(picks.subrange(target as int, needed as int) =~= head.subrange(
            target as int,
            needed as int,
        ));
    }
    let v = sort_supports(pos, neg, Ghost(dims as nat));
    Ok(v)
}

/// Builds a sparse vector by rejection sampling from `rng`: indices are
/// drawn from `0..dims` until `sparsity / 2` distinct positive and then
/// `sparsity / 2` distinct negative indices are found, an index already used
/// by either polarity being drawn again (see `split_draws`, which turns the
/// draws into the vector). Both supports are returned sorted.
pub fn random_sparse_vec(rng: &mut StdRng, dims: usize, sparsity: usize) -> (r: Result<
    SparseVec,
    SparseGenError,
>)
    ensures
        sparsity > dims <==> r == Err::<SparseVec, SparseGenError>(
            SparseGenError::SparsityExceedsDims,
        ),
        sparsity <= dims && sparsity / 2 == 0 ==> r is Ok && r->Ok_0.pos@.len() == 0
            && r->Ok_0.neg@.len() == 0,
        r is Ok ==> exists|draws: Seq<usize>|
            all_below(draws, dims as nat) && #[trigger] is_draw_split(
                r->Ok_0,
                draws,
                dims as nat,
                sparsity as nat,
            ),
{
    if sparsity > dims {
        return Err(SparseGenError::SparsityExceedsDims);
    }
    let needed = 2 * (sparsity / 2);
    let mut draws: Vec<usize> = Vec::new();
    let mut seen: HashSet<usize> = HashSet::new();
    let mut distinct: usize = 0;
    let mut count: u64 = 0;
    proof {
        assert(draws@.to_set() =~= Set::<usize>::empty());
    }
    while distinct < needed && count < MAX_DRAWS
        invariant
            needed <= dims,
            all_below(draws@, dims as nat),
            seen@ == draws@.to_set(),
            distinct == distinct_firsts(draws@).len(),
            distinct <= needed,
        decreases MAX_DRAWS - count,
    {
        let idx = draw_below(rng, dims);
        let ghost before = draws@;
        draws.push(idx);
        count = count + 1;
        proof {
            assert(draws@.drop_last() =~= before);
            lemma_distinct_firsts_props(before);
            before.lemma_push_to_set_commute(idx);
            assert(before.to_set().contains(idx) <==> before.contains(idx));
        }
        if seen.insert(idx) {
            distinct = distinct + 1;
        }
    }
    let r = split_draws(draws.as_slice(), dims, sparsity);
    proof {
        if r is Err {
            match r->Err_0 {
                SparseGenError::SparsityExceedsDims => {},
                SparseGenError::DrawLimitReached => {},
            }
        }
        if r is Ok {
            assert(is_draw_split(r->Ok_0, draws@, dims as nat, sparsity as nat));
        }
    }
    r
}

/// Another name for `random_sparse_vec`.
pub fn mk_random_sparsevec(rng: &mut StdRng, dims: usize, sparsity: usize) -> (r: Result<
    SparseVec,
    SparseGenError,
>)
    ensures
        sparsity > dims <==> r == Err::<SparseVec, SparseGenError>(
            SparseGenError::SparsityExceedsDims,
        ),
        sparsity <= dims && sparsity / 2 == 0 ==> r is Ok && r->Ok_0.pos@.len() == 0
            && r->Ok_0.neg@.len() == 0,
        r is Ok ==> exists|draws: Seq<usize>|
            all_below(draws, dims as nat) && #[trigger] is_draw_split(
                r->Ok_0,
                draws,
                dims as nat,
                sparsity as nat,
            ),
{
    random_sparse_vec(rng, dims, sparsity)
}

/// The noise byte at offset `i`: the top byte of the state after `i + 1`
/// steps from `seed`.
pub open spec fn noise_byte(seed: u64, i: nat) -> u8 {
    (state_after(seed, i + 1) / 0x100_0000_0000_0000) as u8
}

/// `size` reproducible pseudo-random bytes: byte `i` is the top byte of the
/// recurrence's state after `i + 1` steps from `seed`.
pub fn generate_noise_pattern(size: usize, seed: u64) -> (r: Vec<u8>)
    ensures
        r@.len() == size,
        forall|i: int| 0 <= i < size ==> r@[i] == noise_byte(seed, i as nat),
{
    let mut data: Vec<u8> = Vec::with_capacity(size);
    let mut state = seed;
    let mut i: usize = 0;
    while i < size
        invariant
            i <= size,
            data@.len() == i,
            state == state_after(seed, i as nat),
            forall|k: int| 0 <= k < i ==> data@[k] == noise_byte(seed, k as nat),
        decreases size - i,
    {
        state = lcg_step(state);
        let b = (state >> 56) as u8;
        proof {
            assert(state >> 56 == state / 0x100_0000_0000_0000) by (bit_vector);
        }
        data.push(b);
        i = i + 1;
    }
    data
}

/// The gradient byte at column `x`, row `y`.
pub open spec fn gradient_byte(x: nat, y: nat, width: nat, height: nat) -> u8 {
    (((x + y) * 255) / (width + height)) as u8
}

/// A `width` by `height` image, row after row, whose value rises linearly
/// from the top-left corner: `((x + y) * 255) / (width + height)`.
pub fn generate_gradient_pattern(width: usize, height: usize) -> (r: Vec<u8>)
    requires
        width * height <= usize::MAX,
        (width + height) * 255 <= usize::MAX,
    ensures
        r@.len() == width * height,
        forall|y: int, x: int|
            0 <= y < height && 0 <= x < width ==> r@[y * width + x] == #[trigger] gradient_byte(
                x as nat,
                y as nat,
                width as nat,
                height as nat,
            ),
{
    let mut data: Vec<u8> = Vec::with_capacity(width * height);
    let mut y: usize = 0;
    while y < height
        invariant
            y <= height,
            width * height <= usize::MAX,
            (width + height) * 255 <= usize::MAX,
            data@.len() == y * width,
            forall|yy: int, x: int|
                0 <= yy < y && 0 <= x < width ==> data@[yy * width + x] == #[trigger] gradient_byte(
                    x as nat,
                    yy as nat,
                    width as nat,
                    height as nat,
                ),
        decreases height - y,
    {
        let mut x: usize = 0;
        proof {
            assert(y * width + width == (y + 1) * width) by (nonlinear_arith);
            assert((y + 1) * width <= height * width) by (nonlinear_arith)
                requires y + 1 <= height;
        }
        while x < width
            invariant
                y < height,
                x <= width,
                width * height <= usize::MAX,
                (width + height) * 255 <= usize::MAX,
                data@.len() == y * width + x,
                y * width + width == (y + 1) * width,
                (y + 1) * width <= height * width,
                forall|yy: int, xx: int|
                    0 <= yy < y && 0 <= xx < width ==> data@[yy * width + xx] == #[trigger] gradient_byte(
                        xx as nat,
                        yy as nat,
                        width as nat,
                        height as nat,
                    ),
                forall|xx: int|
                    0 <= xx < x ==> data@[y * width + xx] == #[trigger] gradient_byte(
                        xx as nat,
                        y as nat,
                        width as nat,
                        height as nat,
                    ),
            decreases width - x,
        {
            let val = ((x + y) * 255) / (width + height);
            let ghost before = data@;
            data.push(val as u8);
            proof {
                assert forall|yy: int, xx: int|
                    0 <= yy < y && 0 <= xx < width implies data@[yy * width + xx] == #[trigger] gradient_byte(
                    xx as nat,
                    yy as nat,
                    width as nat,
                    height as nat,
                ) by {
                    assert(yy * width + xx < y * width) by (nonlinear_arith)
                        requires yy < y, xx < width, 0 <= xx;
                    assert(data@[yy * width + xx] == before[yy * width + xx]);
                }
            }
            x = x + 1;
        }
        y = y + 1;
    }
    proof {
        assert(height * width == width * height) by (nonlinear_arith);
    }
    data
}

/// The byte of the synthetic executable image at offset `i`: a 16-byte
/// ELF-like header when the image holds at least 16 bytes, then 256-byte
/// runs of `0x90`, the offset's low byte, `0x00` and `0xCC` in turn.
pub open spec fn blob_byte(size: nat, i: nat) -> u8 {
    if size >= 16 && i < 16 {
        if i == 0 {
            0x7f
        } else if i == 1 {
            0x45
        } else if i == 2 {
            0x4c
        } else if i == 3 {
            0x46
        } else if i == 4 {
            2
        } else if i == 5 || i == 6 {
            1
        } else {
            0
        }
    } else if (i / 256) % 4 == 0 {
        0x90
    } else if (i / 256) % 4 == 1 {
        (i % 256) as u8
    } else if (i / 256) % 4 == 2 {
        0x00
    } else {
        0xCC
    }
}

/// A synthetic executable-like image of `size` bytes (see `blob_byte`).
pub fn generate_binary_blob(size: usize) -> (r: Vec<u8>)
    ensures
        r@.len() == size,
        forall|i: int| 0 <= i < size ==> r@[i] == blob_byte(size as nat, i as nat),
{
    let mut data: Vec<u8> = Vec::with_capacity(size);
    if size >= 16 {
        let header: [u8; 16] = [0x7f, 0x45, 0x4c, 0x46, 2, 1, 1, 0, 0, 0, 0, 0, 0, 0, 0, 0];
        let mut k: usize = 0;
        while k < 16
            invariant
                k <= 16,
                size >= 16,
                data@.len() == k,
                header@ == seq![0x7fu8, 0x45, 0x4c, 0x46, 2, 1, 1, 0, 0, 0, 0, 0, 0, 0, 0, 0],
                forall|i: int| 0 <= i < k ==> data@[i] == blob_byte(size as nat, i as nat),
            decreases 16 - k,
        {
            data.push(header[k]);
            k = k + 1;
        }
    }
    let mut offset = data.len();
    while offset < size
        invariant
            offset <= size || (size < 16 && offset == 0),
            size >= 16 ==> offset >= 16,
            data@.len() == offset,
            forall|i: int| 0 <= i < offset ==> data@[i] == blob_byte(size as nat, i as nat),
        decreases size - offset,
    {
        let pattern_type = (offset / 256) % 4;
        if pattern_type == 0 {
            data.push(0x90);
        } else if pattern_type == 1 {
            data.push((offset & 0xFF) as u8);
            proof {
                assert(offset & 0xFF == offset % 256) by (bit_vector);
            }
        } else if pattern_type == 2 {
            data.push(0x00);
        } else {
            data.push(0xCC);
        }
        offset = offset + 1;
    }
    data
}

} // verus!
