//! Byte patterns for test fixtures, and sampled checks against them.

use vstd::prelude::*;

verus! {

/// The content of a generated fixture.
#[derive(Debug, Clone, Copy, PartialEq, Eq)]
pub enum TestDataPattern {
    /// All zeros.
    Zeros,
    /// All ones (`0xFF`).
    Ones,
    /// `0, 1, ..., 255, 0, 1, ...`.
    Sequential,
    /// A fixed multiplicative hash of the offset.
    Random,
    /// A repeated English sentence, which compresses well.
    Compressible,
    /// A repeated ASCII alphabet of letters, digits, space and newline.
    Text,
}

/// The sentence that `Compressible` repeats, in ASCII:
/// `The quick brown fox jumps over the lazy dog. `
pub open spec fn phrase() -> Seq<u8> {
    seq![
        84u8, 104, 101, 32, 113, 117, 105, 99, 107, 32, 98, 114, 111, 119,
        110, 32, 102, 111, 120, 32, 106, 117, 109, 112, 115, 32, 111, 118,
        101, 114, 32, 116, 104, 101, 32, 108, 97, 122, 121, 32, 100, 111,
        103, 46, 32,
    ]
}

/// The alphabet that `Text` repeats, in ASCII: `A`-`Z`, `a`-`z`, `0`-`9`,
/// space and newline.
pub open spec fn alphabet() -> Seq<u8> {
    seq![
        65u8, 66, 67, 68, 69, 70, 71, 72, 73, 74, 75, 76, 77, 78,
        79, 80, 81, 82, 83, 84, 85, 86, 87, 88, 89, 90, 97, 98,
        99, 100, 101, 102, 103, 104, 105, 106, 107, 108, 109, 110, 111, 112,
        113, 114, 115, 116, 117, 118, 119, 120, 121, 122, 48, 49, 50, 51,
        52, 53, 54, 55, 56, 57, 32, 10,
    ]
}

/// The byte that `pattern` puts at offset `i`.
pub open spec fn pattern_byte(pattern: TestDataPattern, i: nat) -> u8 {
    match pattern {
        TestDataPattern::Zeros => 0,
        TestDataPattern::Ones => 0xFF,
        TestDataPattern::Sequential => (i % 256) as u8,
        TestDataPattern::Random => ((i * 2654435761) % 256) as u8,
        TestDataPattern::Compressible => phrase()[(i % 45) as int],
        TestDataPattern::Text => alphabet()[(i % 64) as int],
    }
}

/// Bytes in one megabyte.
pub const MEBIBYTE: usize = 1024 * 1024;

/// `size_bytes` bytes of `pattern`.
pub fn create_test_data_bytes(size_bytes: usize, pattern: TestDataPattern) -> (r: Vec<u8>)
    ensures
        r@.len() == size_bytes,
        forall|i: int| 0 <= i < size_bytes ==> r@[i] == pattern_byte(pattern, i as nat),
{
    let sentence: [u8; 45] = [
        84, 104, 101, 32, 113, 117, 105, 99, 107, 32, 98, 114, 111, 119,
        110, 32, 102, 111, 120, 32, 106, 117, 109, 112, 115, 32, 111, 118,
        101, 114, 32, 116, 104, 101, 32, 108, 97, 122, 121, 32, 100, 111,
        103, 46, 32,
    ];
    let letters: [u8; 64] = [
        65, 66, 67, 68, 69, 70, 71, 72, 73, 74, 75, 76, 77, 78,
        79, 80, 81, 82, 83, 84, 85, 86, 87, 88, 89, 90, 97, 98,
        99, 100, 101, 102, 103, 104, 105, 106, 107, 108, 109, 110, 111, 112,
        113, 114, 115, 116, 117, 118, 119, 120, 121, 122, 48, 49, 50, 51,
        52, 53, 54, 55, 56, 57, 32, 10,
    ];
    let mut data: Vec<u8> = Vec::with_capacity(size_bytes);
    let mut i: usize = 0;
    while i < size_bytes
        invariant
            i <= size_bytes,
            data@.len() == i,
            sentence@ == phrase(),
            letters@ == alphabet(),
            forall|k: int| 0 <= k < i ==> data@[k] == pattern_byte(pattern, k as nat),
        decreases size_bytes - i,
    {
        let b = pattern_byte_at(pattern, i, &sentence, &letters);
        data.push(b);
        i = i + 1;
    }
    data
}

fn pattern_byte_at(pattern: TestDataPattern, i: usize, sentence: &[u8; 45], letters: &[u8; 64]) -> (r: u8)
    requires
        sentence@ == phrase(),
        letters@ == alphabet(),
    ensures
        r == pattern_byte(pattern, i as nat),
{
    match pattern {
        TestDataPattern::Zeros => 0,
        TestDataPattern::Ones => 0xFF,
        TestDataPattern::Sequential => (i % 256) as u8,
        TestDataPattern::Random => {
            proof {
                vstd::arithmetic::div_mod::lemma_mul_mod_noop_general(i as int, 2654435761, 256);
            }
            (((i % 256) * 177) % 256) as u8
        },
        TestDataPattern::Compressible => sentence[i % 45],
        TestDataPattern::Text => letters[i % 64],
    }
}

/// `size_mb` megabytes of `pattern`.
pub fn create_test_data(size_mb: usize, pattern: TestDataPattern) -> (r: Vec<u8>)
    requires
        size_mb * MEBIBYTE <= usize::MAX,
    ensures
        r@.len() == size_mb * MEBIBYTE,
        forall|i: int| 0 <= i < r@.len() ==> r@[i] == pattern_byte(pattern, i as nat),
{
    create_test_data_bytes(size_mb * MEBIBYTE, pattern)
}

/// The first sampled offset at which data did not match its pattern.
#[derive(Debug, Clone, Copy, PartialEq, Eq)]
pub struct SampleMismatch {
    /// Offset in the data.
    pub position: usize,
    /// Number of the sample, from 0.
    pub sample: usize,
    /// The byte the pattern puts there.
    pub expected: u8,
    /// The byte found.
    pub actual: u8,
}

/// Sample `k` of `points` over `len` bytes sits at `k * (len / points)`.
pub open spec fn sample_matches(data: Seq<u8>, pattern: TestDataPattern, points: nat, k: nat) -> bool {
    let pos = k * (data.len() / points);
    pos < data.len() ==> data[pos as int] == pattern_byte(pattern, pos)
}

/// Checks `sample_points` evenly strided offsets of `data` against
/// `pattern`; returns the first sample that differs.
pub fn verify_data_sampled(data: &[u8], expected_pattern: TestDataPattern, sample_points: usize) -> (r: Result<
    (),
    SampleMismatch,
>)
    requires
        sample_points > 0,
    ensures
        r is Ok <==> forall|k: nat| k < sample_points ==> #[trigger] sample_matches(
            data@,
            expected_pattern,
            sample_points as nat,
            k,
        ),
        r is Err ==> {
            let m = r->Err_0;
            &&& m.sample < sample_points
            &&& m.position == m.sample * (data@.len() / sample_points as nat)
            &&& m.position < data@.len()
            &&& m.actual == data@[m.position as int]
            &&& m.expected == pattern_byte(expected_pattern, m.position as nat)
            &&& m.actual != m.expected
            &&& forall|k: nat| k < m.sample ==> #[trigger] sample_matches(
                data@,
                expected_pattern,
                sample_points as nat,
                k,
            )
        },
{
    let sentence: [u8; 45] = [
        84, 104, 101, 32, 113, 117, 105, 99, 107, 32, 98, 114, 111, 119,
        110, 32, 102, 111, 120, 32, 106, 117, 109, 112, 115, 32, 111, 118,
        101, 114, 32, 116, 104, 101, 32, 108, 97, 122, 121, 32, 100, 111,
        103, 46, 32,
    ];
    let letters: [u8; 64] = [
        65, 66, 67, 68, 69, 70, 71, 72, 73, 74, 75, 76, 77, 78,
        79, 80, 81, 82, 83, 84, 85, 86, 87, 88, 89, 90, 97, 98,
        99, 100, 101, 102, 103, 104, 105, 106, 107, 108, 109, 110, 111, 112,
        113, 114, 115, 116, 117, 118, 119, 120, 121, 122, 48, 49, 50, 51,
        52, 53, 54, 55, 56, 57, 32, 10,
    ];
    let len = data.len();
    let stride = len / sample_points;
    let mut i: usize = 0;
    while i < sample_points
        invariant
            i <= sample_points,
            sample_points > 0,
            len == data@.len(),
            stride == len / sample_points,
            sentence@ == phrase(),
            letters@ == alphabet(),
            forall|k: nat| k < i ==> #[trigger] sample_matches(
                data@,
                expected_pattern,
                sample_points as nat,
                k,
            ),
        decreases sample_points - i,
    {
        proof {
            assert(i * stride <= sample_points * (len / sample_points)) by (nonlinear_arith)
                requires i < sample_points, stride == len / sample_points, stride >= 0;
            vstd::arithmetic::div_mod::lemma_fundamental_div_mod(len as int, sample_points as int);
            vstd::arithmetic::div_mod::lemma_mod_bound(len as int, sample_points as int);
        }
        let pos = i * stride;
        if pos >= len {
            proof {
                assert forall|k: nat| k < sample_points implies #[trigger] sample_matches(
                    data@,
                    expected_pattern,
                    sample_points as nat,
                    k,
                ) by {
                    if k >= i {
                        assert(k * stride >= i * stride) by (nonlinear_arith)
                            requires k >= i, stride >= 0;
                    }
                }
            }
            return Ok(());
        }
        let expected = pattern_byte_at(expected_pattern, pos, &sentence, &letters);
        if data[pos] != expected {
            proof {
                assert(!sample_matches(data@, expected_pattern, sample_points as nat, i as nat));
            }
            return Err(SampleMismatch { position: pos, sample: i, expected, actual: data[pos] });
        }
        i = i + 1;
    }
    Ok(())
}

} // verus!
