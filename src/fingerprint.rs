use vstd::prelude::*;
use crate::search::ConfigurationError;

verus! {

/// Number of one bits among the lowest `n` bits of `x`.
pub open spec fn ones_below(x: u64, n: nat) -> nat
    decreases n,
{
    if n == 0 {
        0
    } else {
        ones_below(x, (n - 1) as nat) + (if (x >> ((n - 1) as u64)) & 1 == 1 { 1nat } else { 0nat })
    }
}

/// Number of one bits of `x`.
pub open spec fn popcount(x: u64) -> nat {
    ones_below(x, 64)
}

/// Relies on `u64::count_ones`: the number of one bits in the binary representation.
#[verifier::external_body]
fn count_ones(x: u64) -> (r: u32)
    ensures
        r as nat == popcount(x),
{
    x.count_ones()
}

/// A 64-bit fingerprint of one analysis window.
#[derive(Clone, Copy, Debug, PartialEq, Eq, Structural, Hash)]
pub struct Feature(pub u64);

/// Hamming distance between two fingerprint words.
pub open spec fn hamming(a: u64, b: u64) -> nat {
    popcount(a ^ b)
}

impl Feature {
    /// Hamming distance: the number of bits in which the two fingerprints differ.
    pub fn distance(&self, other: &Self) -> (r: u32)
        ensures
            r as nat == hamming(self.0, other.0),
    {
        count_ones(self.0 ^ other.0)
    }
}

impl From<u64> for Feature {
    fn from(value: u64) -> (r: Self)
        ensures
            r.0 == value,
    {
        Feature(value)
    }
}

impl vstd::std_specs::convert::FromSpecImpl<u64> for Feature {
    open spec fn obeys_from_spec() -> bool {
        true
    }

    open spec fn from_spec(v: u64) -> Self {
        Feature(v)
    }
}

proof fn lemma_ones_below_bound(x: u64, n: nat)
    ensures
        ones_below(x, n) <= n,
    decreases n,
{
    if n > 0 {
        lemma_ones_below_bound(x, (n - 1) as nat);
    }
}

proof fn lemma_ones_below_zero(n: nat)
    requires
        n <= 64,
    ensures
        ones_below(0, n) == 0,
    decreases n,
{
    if n > 0 {
        let k = (n - 1) as u64;
        assert((0u64 >> k) & 1 == 0) by (bit_vector);
        lemma_ones_below_zero((n - 1) as nat);
    }
}

proof fn lemma_ones_below_full(n: nat)
    requires
        n <= 64,
    ensures
        ones_below(0xffff_ffff_ffff_ffffu64, n) == n,
    decreases n,
{
    if n > 0 {
        let k = (n - 1) as u64;
        assert(k < 64 ==> (0xffff_ffff_ffff_ffffu64 >> k) & 1 == 1) by (bit_vector);
        lemma_ones_below_full((n - 1) as nat);
    }
}

/// A distance never exceeds the 64 bits of a fingerprint.
pub proof fn lemma_distance_bound(a: u64, b: u64)
    ensures
        hamming(a, b) <= 64,
{
    lemma_ones_below_bound(a ^ b, 64);
}

/// A fingerprint is at distance 0 from itself and at distance 64 from its
/// bitwise complement.
pub proof fn lemma_self_distance(f: u64)
    ensures
        hamming(f, f) == 0,
        hamming(f, !f) == 64,
{
    assert(f ^ f == 0) by (bit_vector);
    assert(f ^ !f == 0xffff_ffff_ffff_ffffu64) by (bit_vector);
    lemma_ones_below_zero(64);
    lemma_ones_below_full(64);
}


/// The integer parameters of fingerprint extraction: framing and quantization.
#[derive(Clone, Copy, Debug)]
pub struct FeatureExtractorConfiguration {
    pub sample_rate: usize,
    pub window_size: usize,
    pub window_stride: usize,
    pub chroma_n_octaves: usize,
    pub chroma_bins_per_octave: usize,
    pub quantizer_bits_per_bin: usize,
    pub quantizer_topk: usize,
}

/// Number of whole windows of `w` samples, `s` apart, in `n` samples.
pub open spec fn frame_count(n: nat, w: nat, s: nat) -> nat
    recommends
        s > 0,
{
    if n >= w {
        ((n - w) as nat / s + 1) as nat
    } else {
        0
    }
}

/// A run of `w` low one bits.
pub open spec fn thermometer(w: nat) -> u64 {
    ((1u64 << (w as u64)) - 1) as u64
}

/// The run length given to the `r`-th of the `k` strongest bins.
pub open spec fn code_width(r: nat, bits_per_bin: nat, k: nat) -> nat {
    (r * (bits_per_bin + 1) / k) as nat
}

/// The bits contributed by the `r`-th of the `k` strongest bins of `ranked`
/// (bin indices from weakest to strongest).
pub open spec fn segment(ranked: Seq<usize>, r: nat, bits_per_bin: nat, k: nat) -> u64 {
    let bin = ranked[ranked.len() - k + r];
    thermometer(code_width(r, bits_per_bin, k)) << ((bin * bits_per_bin) as u64)
}

/// The fingerprint built from the first `i` of the `k` strongest bins.
pub open spec fn quantized(ranked: Seq<usize>, bits_per_bin: nat, k: nat, i: nat) -> u64
    decreases i,
{
    if i == 0 {
        0
    } else {
        quantized(ranked, bits_per_bin, k, (i - 1) as nat) | segment(ranked, (i - 1) as nat, bits_per_bin, k)
    }
}

/// Every entry of `ranked` names one of `bins` chroma bins.
pub open spec fn bins_ranked(ranked: Seq<usize>, bins: nat) -> bool {
    &&& ranked.len() == bins
    &&& forall|i: int| 0 <= i < ranked.len() ==> ranked[i] < bins
}

proof fn lemma_width_bounds(r: nat, b: nat, k: nat, bins: nat)
    requires
        r < k,
        k <= bins,
        bins * b <= 64,
        b > 0,
    ensures
        code_width(r, b, k) <= b,
        code_width(r, b, k) < 64,
{
    assert(r * (b + 1) < k * (b + 1)) by (nonlinear_arith)
        requires
            r < k,
    ;
    assert(r * (b + 1) / k <= b) by (nonlinear_arith)
        requires
            r * (b + 1) < k * (b + 1),
            k > 0,
    ;
    if b >= 64 {
        assert(bins <= 1) by (nonlinear_arith)
            requires
                bins * b <= 64,
                b >= 64,
        ;
        assert(r == 0);
        assert(r * (b + 1) == 0) by (nonlinear_arith)
            requires
                r == 0,
        ;
    }
}

proof fn lemma_shift_bound(bin: nat, b: nat, bins: nat)
    requires
        bin < bins,
        bins * b <= 64,
        b > 0,
    ensures
        bin * b + b <= 64,
        bin * b < 64,
{
    assert(bin * b + b <= bins * b) by (nonlinear_arith)
        requires
            bin < bins,
    ;
}

impl FeatureExtractorConfiguration {
    /// All sizes are positive, the stride fits in a window, the strongest bins
    /// are bins of an octave, and every bin's slot fits in 64 bits.
    pub open spec fn valid(&self) -> bool {
        &&& self.sample_rate > 0
        &&& self.window_size > 0
        &&& self.window_stride > 0
        &&& self.chroma_n_octaves > 0
        &&& self.chroma_bins_per_octave > 0
        &&& self.quantizer_bits_per_bin > 0
        &&& self.window_stride <= self.window_size
        &&& self.quantizer_topk <= self.chroma_bins_per_octave
        &&& self.chroma_bins_per_octave * self.quantizer_bits_per_bin <= 64
    }

    /// Builds a configuration, rejecting one that breaks `valid`.
    pub fn new(
        sample_rate: usize,
        window_size: usize,
        window_stride: usize,
        chroma_n_octaves: usize,
        chroma_bins_per_octave: usize,
        quantizer_bits_per_bin: usize,
        quantizer_topk: usize,
    ) -> (r: Result<FeatureExtractorConfiguration, ConfigurationError>)
        ensures
            ({
                let c = FeatureExtractorConfiguration {
                    sample_rate,
                    window_size,
                    window_stride,
                    chroma_n_octaves,
                    chroma_bins_per_octave,
                    quantizer_bits_per_bin,
                    quantizer_topk,
                };
                match r {
                    Ok(v) => c.valid() && v == c,
                    Err(e) => !c.valid() && e == ConfigurationError::InvalidConfiguration,
                }
            }),
    {
        let c = FeatureExtractorConfiguration {
            sample_rate,
            window_size,
            window_stride,
            chroma_n_octaves,
            chroma_bins_per_octave,
            quantizer_bits_per_bin,
            quantizer_topk,
        };
        if sample_rate == 0 || window_size == 0 || window_stride == 0 || chroma_n_octaves == 0
            || chroma_bins_per_octave == 0 || quantizer_bits_per_bin == 0 || window_stride > window_size
            || quantizer_topk > chroma_bins_per_octave {
            return Err(ConfigurationError::InvalidConfiguration);
        }
        if chroma_bins_per_octave > 64 || quantizer_bits_per_bin > 64 {
            proof {
                assert(chroma_bins_per_octave * quantizer_bits_per_bin > 64) by (nonlinear_arith)
                    requires
                        chroma_bins_per_octave > 64 || quantizer_bits_per_bin > 64,
                        chroma_bins_per_octave > 0,
                        quantizer_bits_per_bin > 0,
                ;
            }
            return Err(ConfigurationError::InvalidConfiguration);
        }
        proof {
            assert(chroma_bins_per_octave * quantizer_bits_per_bin <= 4096) by (nonlinear_arith)
                requires
                    chroma_bins_per_octave <= 64,
                    quantizer_bits_per_bin <= 64,
            ;
        }
        if chroma_bins_per_octave * quantizer_bits_per_bin > 64 {
            return Err(ConfigurationError::InvalidConfiguration);
        }
        Ok(c)
    }

    /// The configuration the engine ships with.
    pub fn default_configuration() -> (r: FeatureExtractorConfiguration)
        ensures
            r.valid(),
            r.sample_rate == 11500,
            r.window_size == 4096,
            r.window_stride == 2048,
            r.chroma_n_octaves == 8,
            r.chroma_bins_per_octave == 12,
            r.quantizer_bits_per_bin == 5,
            r.quantizer_topk == 8,
    {
        FeatureExtractorConfiguration {
            sample_rate: 11500,
            window_size: 4096,
            window_stride: 2048,
            chroma_n_octaves: 8,
            chroma_bins_per_octave: 12,
            quantizer_bits_per_bin: 5,
            quantizer_topk: 8,
        }
    }

    /// Number of fingerprints extracted from `n` samples: one per whole
    /// window; a tail shorter than a window is dropped.
    pub fn frame_count(&self, n: usize) -> (r: usize)
        requires
            self.valid(),
        ensures
            r as nat == frame_count(n as nat, self.window_size as nat, self.window_stride as nat),
    {
        if n >= self.window_size {
            (n - self.window_size) / self.window_stride + 1
        } else {
            0
        }
    }

    /// Where each window starts in `n` samples, in order.
    pub fn frame_offsets(&self, n: usize) -> (r: Vec<usize>)
        requires
            self.valid(),
        ensures
            r@.len() == frame_count(n as nat, self.window_size as nat, self.window_stride as nat),
            forall|i: int| 0 <= i < r@.len() ==> #[trigger] r@[i] == i * self.window_stride,
            forall|i: int| 0 <= i < r@.len() ==> #[trigger] r@[i] + self.window_size <= n,
    {
        let count = self.frame_count(n);
        let mut r: Vec<usize> = Vec::with_capacity(count);
        let mut i: usize = 0;
        let mut off: usize = 0;
        while i < count
            invariant
                self.valid(),
                count as nat == frame_count(n as nat, self.window_size as nat, self.window_stride as nat),
                i <= count,
                r@.len() == i,
                i < count ==> off == i * self.window_stride,
                forall|x: int| 0 <= x < i ==> #[trigger] r@[x] == x * self.window_stride,
                forall|x: int| 0 <= x < i ==> #[trigger] r@[x] + self.window_size <= n,
            decreases count - i,
        {
            proof {
                let w = self.window_size as int;
                let s = self.window_stride as int;
                assert(n >= w);
                assert(i < (n - w) / s + 1);
                assert(i * s <= n - w) by (nonlinear_arith)
                    requires
                        i < (n - w) / s + 1,
                        s > 0,
                        n >= w,
                ;
            }
            r.push(off);
            i = i + 1;
            if i < count {
                proof {
                    let w = self.window_size as int;
                    let s = self.window_stride as int;
                    assert(i * s <= n - w) by (nonlinear_arith)
                        requires
                            i < (n - w) / s + 1,
                            s > 0,
                            n >= w,
                    ;
                    assert(i * s == (i - 1) * s + s) by (nonlinear_arith);
                }
                off = off + self.window_stride;
            }
        }
        r
    }

    /// The fingerprint of one chroma vector, given its bin indices ordered from
    /// weakest to strongest: each of the `k` strongest bins gets a run of one
    /// bits, longer for stronger bins, in that bin's slot.
    pub fn quantize(&self, ranked: &Vec<usize>) -> (r: u64)
        requires
            self.valid(),
            bins_ranked(ranked@, self.chroma_bins_per_octave as nat),
        ensures
            r == quantized(
                ranked@,
                self.quantizer_bits_per_bin as nat,
                self.quantizer_topk as nat,
                self.quantizer_topk as nat,
            ),
    {
        let k = self.quantizer_topk;
        let b = self.quantizer_bits_per_bin;
        let bins = self.chroma_bins_per_octave;
        let mut acc: u64 = 0;
        let mut i: usize = 0;
        while i < k
            invariant
                self.valid(),
                k == self.quantizer_topk,
                b == self.quantizer_bits_per_bin,
                bins == self.chroma_bins_per_octave,
                bins_ranked(ranked@, bins as nat),
                i <= k,
                acc == quantized(ranked@, b as nat, k as nat, i as nat),
            decreases k - i,
        {
            let bin = ranked[bins - k + i];
            proof {
                lemma_width_bounds(i as nat, b as nat, k as nat, bins as nat);
                lemma_shift_bound(bin as nat, b as nat, bins as nat);
                assert(bins <= 64) by (nonlinear_arith)
                    requires
                        bins * b <= 64,
                        b > 0,
                ;
                assert((i as nat) * (b as nat + 1) <= 64 * 65) by (nonlinear_arith)
                    requires
                        i < k,
                        k <= bins,
                        bins <= 64,
                        b <= 64,
                ;
            }
            let width = i * (b + 1) / k;
            let shift = bin * b;
            proof {
                let w64 = width as u64;
                assert(w64 < 64 ==> (1u64 << w64) >= 1) by (bit_vector);
            }
            let code: u64 = (1u64 << width) - 1;
            acc = acc | (code << shift);
            i = i + 1;
        }
        acc
    }
}


/// A five-bit slot value that is a run of low one bits.
pub open spec fn is_thermometer_slot(x: u64) -> bool {
    x == 0 || x == 1 || x == 3 || x == 7 || x == 15 || x == 31
}

/// The five-bit slot `i` of a fingerprint.
pub open spec fn slot(x: u64, i: nat) -> u64 {
    (x >> ((5 * i) as u64)) & 31
}

proof fn lemma_slot_or(x: u64, y: u64, s: u64)
    requires
        s < 64,
    ensures
        ((x | y) >> s) & 31 == ((x >> s) & 31) | ((y >> s) & 31),
{
    assert(((x | y) >> s) & 31 == ((x >> s) & 31) | ((y >> s) & 31)) by (bit_vector)
        requires
            s < 64,
    ;
}

proof fn lemma_slot_of_segment(c: u64, sj: u64, si: u64)
    requires
        c <= 31,
        sj < 64,
        si < 64,
        si == sj || si + 5 <= sj || sj + 5 <= si,
        sj + 5 <= 64,
    ensures
        ((c << sj) >> si) & 31 == (if si == sj { c } else { 0 }),
{
    assert(((c << sj) >> si) & 31 == (if si == sj { c } else { 0 })) by (bit_vector)
        requires
            c <= 31,
            sj < 64,
            si < 64,
            si == sj || si + 5 <= sj || sj + 5 <= si,
            sj + 5 <= 64,
    ;
}

proof fn lemma_thermometer_or(a: u64, b: u64)
    requires
        is_thermometer_slot(a),
        is_thermometer_slot(b),
    ensures
        is_thermometer_slot(a | b),
{
    assert(is_thermometer_slot(a) && is_thermometer_slot(b) ==> is_thermometer_slot(a | b)) by (bit_vector);
}

proof fn lemma_short_thermometer(w: nat)
    requires
        w <= 5,
    ensures
        is_thermometer_slot(thermometer(w)),
        thermometer(w) <= 31,
{
    let w64 = w as u64;
    assert(w64 <= 5 ==> is_thermometer_slot(((1u64 << w64) - 1) as u64) && ((1u64 << w64) - 1) as u64 <= 31)
        by (bit_vector);
}

proof fn lemma_slots_thermometer(ranked: Seq<usize>, i: nat)
    requires
        bins_ranked(ranked, 12),
        i <= 8,
    ensures
        forall|j: nat| j < 12 ==> is_thermometer_slot(#[trigger] slot(quantized(ranked, 5, 8, i), j)),
    decreases i,
{
    if i == 0 {
        assert forall|j: nat| j < 12 implies is_thermometer_slot(#[trigger] slot(quantized(ranked, 5, 8, i), j)) by {
            let sj = (5 * j) as u64;
            assert((0u64 >> sj) & 31 == 0) by (bit_vector);
        }
    } else {
        let r = (i - 1) as nat;
        lemma_slots_thermometer(ranked, r);
        let prev = quantized(ranked, 5, 8, r);
        let bin = ranked[ranked.len() - 8 + r];
        let w = code_width(r, 5, 8);
        assert(w <= 5) by (nonlinear_arith)
            requires
                w == r * 6 / 8,
                r < 8,
        ;
        lemma_short_thermometer(w);
        let seg = segment(ranked, r, 5, 8);
        assert forall|j: nat| j < 12 implies is_thermometer_slot(#[trigger] slot(quantized(ranked, 5, 8, i), j)) by {
            let si = (5 * j) as u64;
            let sj = (bin * 5) as u64;
            lemma_slot_or(prev, seg, si);
            lemma_slot_of_segment(thermometer(w), sj, si);
            assert(is_thermometer_slot(slot(prev, j)));
            assert(is_thermometer_slot(0u64));
            lemma_thermometer_or(slot(prev, j), ((seg >> si) & 31));
        }
    }
}

/// With twelve bins, five bits per bin and the eight strongest bins coded,
/// every five-bit slot of a fingerprint is a run of zero to five low one bits.
pub proof fn lemma_default_slot_discipline(ranked: Seq<usize>)
    requires
        bins_ranked(ranked, 12),
    ensures
        forall|j: nat| j < 12 ==> is_thermometer_slot(#[trigger] slot(quantized(ranked, 5, 8, 8), j)),
{
    lemma_slots_thermometer(ranked, 8);
}

} // verus!
