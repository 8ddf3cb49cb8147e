//! The operations of the vector-symbolic engine under test, reached through
//! `embeddenator_vsa`. Their results are named, not restated: the checks in
//! `integrity` only compare them.

use crate::sparse::SparseVec;
use vstd::prelude::*;

verus! {

/// The `(pos, neg)` supports that the engine's bind gives for two vectors.
pub uninterp spec fn bind_of(
    a: (Seq<usize>, Seq<usize>),
    b: (Seq<usize>, Seq<usize>),
) -> (Seq<usize>, Seq<usize>);

/// The `(pos, neg)` supports that the engine's bundle gives for two vectors.
pub uninterp spec fn bundle_of(
    a: (Seq<usize>, Seq<usize>),
    b: (Seq<usize>, Seq<usize>),
) -> (Seq<usize>, Seq<usize>);

/// Relies on `embeddenator_vsa::SparseVec::bind`: a pure function of the two
/// operands' supports (its packed path fills freshly cleared scratch
/// buffers), which skips out-of-range indices and does not panic.
#[verifier::external_body]
pub(crate) fn engine_bind(a: &SparseVec, b: &SparseVec) -> (r: SparseVec)
    ensures
        (r.pos@, r.neg@) == bind_of((a.pos@, a.neg@), (b.pos@, b.neg@)),
{
    let x = embeddenator_vsa::SparseVec { pos: a.pos.clone(), neg: a.neg.clone() };
    let y = embeddenator_vsa::SparseVec { pos: b.pos.clone(), neg: b.neg.clone() };
    let z = x.bind(&y);
    SparseVec { pos: z.pos, neg: z.neg }
}

/// Relies on `embeddenator_vsa::SparseVec::bundle`: a pure function of the
/// two operands' supports, as for bind, which does not panic.
#[verifier::external_body]
pub(crate) fn engine_bundle(a: &SparseVec, b: &SparseVec) -> (r: SparseVec)
    ensures
        (r.pos@, r.neg@) == bundle_of((a.pos@, a.neg@), (b.pos@, b.neg@)),
{
    let x = embeddenator_vsa::SparseVec { pos: a.pos.clone(), neg: a.neg.clone() };
    let y = embeddenator_vsa::SparseVec { pos: b.pos.clone(), neg: b.neg.clone() };
    let z = x.bundle(&y);
    SparseVec { pos: z.pos, neg: z.neg }
}

} // verus!
