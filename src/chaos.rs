//! Reproducible fault injection over byte buffers.
//!
//! Rates are given in parts per million (`PPM` stands for a rate of 1): an
//! error rate of one tenth is `100_000`.

use crate::lcg::{lcg_step, state_after};
use vstd::prelude::*;

verus! {

/// The rate that stands for certainty, in parts per million.
pub const PPM: u32 = 1_000_000;

/// The default injection probability, 1%.
pub const DEFAULT_PROBABILITY_PPM: u32 = 10_000;

/// Offset added to the seed before erasures are drawn, so that their stream
/// differs from the bit-flip stream of the same seed.
pub const ERASURE_SEED_OFFSET: u64 = 12345;

/// Seeded corruption of byte buffers: every call derives its own state from
/// the stored seed, so equal inputs always meet equal corruption.
#[derive(Clone, Copy, Debug)]
pub struct ChaosInjector {
    seed: u64,
    probability_ppm: u32,
}

/// `floor(count * rate_ppm / PPM)`: how many events a rate asks for.
pub open spec fn events_for(count: nat, rate_ppm: nat) -> nat {
    count * rate_ppm / (PPM as nat)
}

/// The buffer after flipping the bit that `state` selects: byte
/// `state % len`, bit `(state >> 8) % 8`.
pub open spec fn flip_at(data: Seq<u8>, state: u64) -> Seq<u8> {
    let pos = (state as nat % data.len()) as int;
    let bit = ((state as nat / 256) % 8) as u8;
    data.update(pos, data[pos] ^ (1u8 << bit))
}

/// The buffer after `n` bit-flip events drawn from `seed`, one after the
/// other (an event may hit a bit that an earlier one flipped).
pub open spec fn flipped(data: Seq<u8>, seed: u64, n: nat) -> Seq<u8>
    decreases n,
{
    if n == 0 {
        data
    } else {
        flip_at(flipped(data, seed, (n - 1) as nat), state_after(seed, n))
    }
}

/// Whether packet `p` of `packets` is among those selected by the first
/// `k` draws from `seed`.
pub open spec fn packet_dropped(seed: u64, packets: nat, k: nat, p: nat) -> bool
    decreases k,
{
    if k == 0 {
        false
    } else {
        state_after(seed, k) as nat % packets == p || packet_dropped(
            seed,
            packets,
            (k - 1) as nat,
            p,
        )
    }
}

/// `ceil(len / packet_size)`.
pub open spec fn packet_count(len: nat, packet_size: nat) -> nat {
    len / packet_size + if len % packet_size == 0 {
        0nat
    } else {
        1nat
    }
}

/// The buffer and the list of erased positions after `n` erasure draws
/// from `start`: a drawn position is zeroed and listed only if its byte was
/// not zero already.
pub open spec fn erasure_run(data: Seq<u8>, start: u64, n: nat) -> (Seq<u8>, Seq<usize>)
    decreases n,
{
    if n == 0 {
        (data, Seq::empty())
    } else {
        let (d, e) = erasure_run(data, start, (n - 1) as nat);
        let pos = (state_after(start, n) as nat % data.len()) as int;
        if d[pos] != 0 {
            (d.update(pos, 0u8), e.push(pos as usize))
        } else {
            (d, e)
        }
    }
}

/// The state that erasures start from.
pub open spec fn erasure_start(seed: u64) -> u64 {
    ((seed as nat + ERASURE_SEED_OFFSET as nat) % 0x1_0000_0000_0000_0000nat) as u64
}

/// `floor(count * rate_ppm / PPM)`, for a rate of at most `PPM`.
fn event_count(count: usize, rate_ppm: u32) -> (r: usize)
    requires
        rate_ppm <= PPM,
    ensures
        r == events_for(count as nat, rate_ppm as nat),
        r <= count,
{
    let c = count as u128;
    let p = rate_ppm as u128;
    proof {
        assert(c * p <= c * 1_000_000) by (nonlinear_arith)
            requires p <= 1_000_000;
        assert(c * 1_000_000 <= 0xFFFF_FFFF_FFFF_FFFF * 1_000_000) by (nonlinear_arith)
            requires c <= 0xFFFF_FFFF_FFFF_FFFF;
        assert((c * p) / 1_000_000 <= (c * 1_000_000) / 1_000_000) by {
            vstd::arithmetic::div_mod::lemma_div_is_ordered(
                (c * p) as int,
                (c * 1_000_000) as int,
                1_000_000,
            );
        }
        vstd::arithmetic::div_mod::lemma_div_by_multiple(c as int, 1_000_000);
    }
    let q = (c * p) / 1_000_000;
    q as usize
}

proof fn lemma_packet_count_bounds(len: int, ps: int)
    requires
        0 < len,
        0 < ps,
    ensures
        len / ps + (if len % ps == 0 { 0int } else { 1int }) > 0,
        len / ps + (if len % ps == 0 { 0int } else { 1int }) <= len,
        len == ps * (len / ps) + len % ps,
        0 <= len % ps < ps,
{
    vstd::arithmetic::div_mod::lemma_fundamental_div_mod(len, ps);
    vstd::arithmetic::div_mod::lemma_mod_bound(len, ps);
    if ps == 1 {
        assert(len / ps == len);
        assert(len % ps == 0);
    } else {
        vstd::arithmetic::div_mod::lemma_div_decreases(len, ps);
    }
    if len % ps == 0 {
        assert(len / ps > 0) by (nonlinear_arith)
            requires
                len == ps * (len / ps),
                len > 0,
                ps > 0;
    }
}

proof fn lemma_packet_start(idx: int, ps: int, len: int)
    requires
        0 < len,
        0 < ps,
        0 <= idx < len / ps + (if len % ps == 0 { 0int } else { 1int }),
    ensures
        idx * ps < len,
{
    lemma_packet_count_bounds(len, ps);
    let q = len / ps;
    let r = len % ps;
    if r == 0 {
        assert(idx * ps < len) by (nonlinear_arith)
            requires
                idx < q,
                len == ps * q,
                ps > 0;
    } else {
        assert(idx * ps < len) by (nonlinear_arith)
            requires
                idx <= q,
                len == ps * q + r,
                r > 0,
                ps > 0;
    }
}

proof fn lemma_in_packet(i: int, ps: int, idx: int)
    requires
        0 <= i,
        0 < ps,
        0 <= idx,
    ensures
        (idx * ps <= i < idx * ps + ps) <==> i / ps == idx,
{
    vstd::arithmetic::div_mod::lemma_fundamental_div_mod(i, ps);
    vstd::arithmetic::div_mod::lemma_mod_bound(i, ps);
    if idx * ps <= i < idx * ps + ps {
        vstd::arithmetic::div_mod::lemma_fundamental_div_mod_converse(i, ps, idx, i - idx * ps);
    }
    if i / ps == idx {
        assert(idx * ps <= i < idx * ps + ps) by (nonlinear_arith)
            requires
                i == ps * (i / ps) + i % ps,
                0 <= i % ps < ps,
                i / ps == idx;
    }
}

/// The byte that draw `j` (from 1) of a flip stream from `seed` targets in a
/// buffer of `len` bytes.
pub open spec fn flip_target(seed: u64, len: nat, j: nat) -> nat {
    state_after(seed, j) as nat % len
}

/// Bit flips keep the length, and a byte differs from the input only if
/// one of the `n` draws targeted it; so at most `n` bytes change.
pub proof fn lemma_flips_touch_only_targets(data: Seq<u8>, seed: u64, n: nat)
    requires
        data.len() > 0 || n == 0,
    ensures
        flipped(data, seed, n).len() == data.len(),
        forall|i: int|
            0 <= i < data.len() && #[trigger] flipped(data, seed, n)[i] != data[i] ==> exists|j: nat|
                1 <= j <= n && flip_target(seed, data.len(), j) == i,
    decreases n,
{
    if n > 0 {
        lemma_flips_touch_only_targets(data, seed, (n - 1) as nat);
        let prev = flipped(data, seed, (n - 1) as nat);
        assert forall|i: int|
            0 <= i < data.len() && #[trigger] flipped(data, seed, n)[i] != data[i] implies exists|
                j: nat,
            | 1 <= j <= n && flip_target(seed, data.len(), j) == i by {
            if i == flip_target(seed, data.len(), n) {
                assert(flip_target(seed, data.len(), n) == i);
            } else {
                assert(flipped(data, seed, n)[i] == prev[i]);
                let j = choose|j: nat| 1 <= j <= n - 1 && flip_target(seed, data.len(), j) == i;
                assert(1 <= j <= n && flip_target(seed, data.len(), j) == i);
            }
        }
    }
}

impl ChaosInjector {
    /// The seed every corruption stream starts from.
    pub closed spec fn spec_seed(&self) -> u64 {
        self.seed
    }

    /// The injection probability, in parts per million.
    pub closed spec fn spec_probability_ppm(&self) -> nat {
        self.probability_ppm as nat
    }

    /// Creates an injector with the default probability of 1%.
    pub fn new(seed: u64) -> (r: ChaosInjector)
        ensures
            r.spec_seed() == seed,
            r.spec_probability_ppm() == DEFAULT_PROBABILITY_PPM,
    {
        ChaosInjector { seed, probability_ppm: DEFAULT_PROBABILITY_PPM }
    }

    /// The same injector with probability `p_ppm`, clamped to `PPM`.
    pub fn with_probability(self, p_ppm: u32) -> (r: ChaosInjector)
        ensures
            r.spec_seed() == self.spec_seed(),
            r.spec_probability_ppm() == if p_ppm <= PPM {
                p_ppm as nat
            } else {
                PPM as nat
            },
    {
        let mut r = self;
        r.probability_ppm = if p_ppm <= PPM {
            p_ppm
        } else {
            PPM
        };
        r
    }

    /// Flips `floor(len * error_rate_ppm / PPM)` bits of `data`, each chosen
    /// by the next state of the recurrence started from the seed.
    pub fn corrupt_bytes(&self, data: &mut [u8], error_rate_ppm: u32)
        requires
            error_rate_ppm <= PPM,
        ensures
            final(data)@ == flipped(
                old(data)@,
                self.spec_seed(),
                events_for(old(data)@.len(), error_rate_ppm as nat),
            ),
    {
        let len = data.len();
        let num_errors = event_count(len, error_rate_ppm);
        let mut state = self.seed;
        let mut k: usize = 0;
        while k < num_errors
            invariant
                k <= num_errors,
                data@.len() == len,
                len > 0 || num_errors == 0,
                state == state_after(self.spec_seed(), k as nat),
                data@ == flipped(old(data)@, self.spec_seed(), k as nat),
            decreases num_errors - k,
        {
            state = lcg_step(state);
            let pos = (state % (len as u64)) as usize;
            let bit = ((state >> 8) % 8) as u8;
            proof {
                assert(state >> 8 == state / 256) by (bit_vector);
            }
            let b = data[pos] ^ (1u8 << bit);
            data[pos] = b;
            k = k + 1;
        }
    }

    /// A corrupted copy of `data`, which itself is left as it is.
    pub fn corrupt_copy(&self, data: &[u8], error_rate_ppm: u32) -> (r: Vec<u8>)
        requires
            error_rate_ppm <= PPM,
        ensures
            r@ == flipped(data@, self.spec_seed(), events_for(data@.len(), error_rate_ppm as nat)),
    {
        let mut corrupted = vstd::slice::slice_to_vec(data);
        self.corrupt_bytes(corrupted.as_mut_slice(), error_rate_ppm);
        corrupted
    }

    /// Zeroes whole packets: the buffer is cut into `ceil(len / packet_size)`
    /// packets (the last may be short), `floor(packets * loss_rate_ppm / PPM)`
    /// draws each pick one packet, and every picked packet is cleared. Two
    /// draws may pick the same packet, so fewer packets than draws may be
    /// lost. An empty buffer or a zero packet size leaves `data` as it is.
    pub fn simulate_packet_loss(&self, data: &mut [u8], loss_rate_ppm: u32, packet_size: usize)
        requires
            loss_rate_ppm <= PPM,
        ensures
            final(data)@.len() == old(data)@.len(),
            packet_size == 0 ==> final(data)@ == old(data)@,
            packet_size > 0 ==> {
                let packets = packet_count(old(data)@.len(), packet_size as nat);
                let drops = events_for(packets, loss_rate_ppm as nat);
                forall|i: int|
                    0 <= i < old(data)@.len() ==> #[trigger] final(data)@[i] == if packet_dropped(
                        self.spec_seed(),
                        packets,
                        drops,
                        i as nat / packet_size as nat,
                    ) {
                        0u8
                    } else {
                        old(data)@[i]
                    }
            },
    {
        let len = data.len();
        if packet_size == 0 || len == 0 {
            return;
        }
        proof {
            lemma_packet_count_bounds(len as int, packet_size as int);
        }
        let num_packets = len / packet_size + if len % packet_size == 0 {
            0
        } else {
            1
        };
        let packets_to_drop = event_count(num_packets, loss_rate_ppm);
        let ghost seed = self.spec_seed();
        let ghost packets = num_packets as nat;
        let ghost ps = packet_size as nat;
        let mut state = self.seed;
        let mut k: usize = 0;
        while k < packets_to_drop
            invariant
                k <= packets_to_drop,
                data@.len() == len,
                len > 0,
                packet_size > 0,
                ps == packet_size as nat,
                num_packets > 0,
                packets == num_packets as nat,
                num_packets == packet_count(len as nat, ps),
                state == state_after(seed, k as nat),
                forall|i: int|
                    0 <= i < len ==> #[trigger] data@[i] == if packet_dropped(
                        seed,
                        packets,
                        k as nat,
                        i as nat / ps,
                    ) {
                        0u8
                    } else {
                        old(data)@[i]
                    },
            decreases packets_to_drop - k,
        {
            state = lcg_step(state);
            let packet_idx = (state % (num_packets as u64)) as usize;
            proof {
                lemma_packet_start(packet_idx as int, packet_size as int, len as int);
            }
            let start = packet_idx * packet_size;
            let end = if len - start < packet_size {
                len
            } else {
                start + packet_size
            };
            let ghost before = data@;
            let mut p = start;
            while p < end
                invariant
                    start <= p <= end,
                    end <= len,
                    data@.len() == len,
                    forall|i: int|
                        0 <= i < len ==> #[trigger] data@[i] == if start <= i < p {
                            0u8
                        } else {
                            before[i]
                        },
                decreases end - p,
            {
                data[p] = 0;
                p = p + 1;
            }
            proof {
                let k1 = (k + 1) as nat;
                assert forall|i: int| 0 <= i < len implies #[trigger] data@[i] == if packet_dropped(
                    seed,
                    packets,
                    k1,
                    i as nat / ps,
                ) {
                    0u8
                } else {
                    old(data)@[i]
                } by {
                    assert(before[i] == if packet_dropped(seed, packets, k as nat, i as nat / ps) {
                        0u8
                    } else {
                        old(data)@[i]
                    });
                    lemma_in_packet(i, packet_size as int, packet_idx as int);
                }
            }
            k = k + 1;
        }
    }

    /// Zeroes up to `min(count, len)` drawn positions, drawing from the seed
    /// plus `ERASURE_SEED_OFFSET`; a drawn byte that is zero already is left
    /// and not listed. Returns the positions erased, in order.
    pub fn inject_erasures(&self, data: &mut [u8], count: usize) -> (r: Vec<usize>)
        ensures
            ({
                let n = if count <= old(data)@.len() {
                    count as nat
                } else {
                    old(data)@.len()
                };
                (final(data)@, r@) == erasure_run(old(data)@, erasure_start(self.spec_seed()), n)
            }),
            final(data)@.len() == old(data)@.len(),
            r@.len() <= count,
            r@.len() <= old(data)@.len(),
            r@.no_duplicates(),
            forall|j: int| 0 <= j < r@.len() ==> r@[j] < final(data)@.len() && final(data)@[r@[j] as int] == 0,
    {
        let len = data.len();
        let n = if count <= len {
            count
        } else {
            len
        };
        let mut erased: Vec<usize> = Vec::new();
        let mut state = self.seed.wrapping_add(ERASURE_SEED_OFFSET);
        let ghost start = erasure_start(self.spec_seed());
        let mut k: usize = 0;
        while k < n
            invariant
                k <= n,
                n <= len,
                data@.len() == len,
                old(data)@.len() == len,
                state == state_after(start, k as nat),
                (data@, erased@) == erasure_run(old(data)@, start, k as nat),
                erased@.len() <= k,
                erased@.no_duplicates(),
                forall|j: int| 0 <= j < erased@.len() ==> erased@[j] < len && data@[erased@[j] as int] == 0,
            decreases n - k,
        {
            state = lcg_step(state);
            let pos = (state % (len as u64)) as usize;
            if data[pos] != 0 {
                proof {
                    assert(!erased@.contains(pos));
                }
                data[pos] = 0;
                erased.push(pos);
            }
            k = k + 1;
        }
        erased
    }
}

impl Default for ChaosInjector {
    /// An injector seeded with 0 and the default probability.
    fn default() -> (r: ChaosInjector)
        ensures
            r.spec_seed() == 0,
            r.spec_probability_ppm() == DEFAULT_PROBABILITY_PPM,
    {
        ChaosInjector::new(0)
    }
}

} // verus!
