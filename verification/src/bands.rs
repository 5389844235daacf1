//! Frequency bands: which band each bin of a spectrum belongs to.
//!
//! A block of `block_length` samples at `sample_rate` Hz yields
//! `block_length / 2` bins; bin `i` is centred at
//! `i * sample_rate / block_length` Hz. Each band has an upper bound in Hz,
//! and a bin belongs to the first band whose bound is at or above its centre.
//! A bin above every bound belongs to no band. All comparisons are made
//! exactly, by cross-multiplication.

use vstd::prelude::*;

verus! {

/// Each bound is above all those before it.
pub open spec fn strictly_ascending(bounds: Seq<nat>) -> bool {
    forall|i: int, j: int| 0 <= i < j < bounds.len() ==> bounds[i] < bounds[j]
}

/// The mathematical content of a [`BandConfig`].
pub struct BandModel {
    pub block_length: nat,
    pub sample_rate: nat,
    /// Upper bound of each band in Hz, in band order.
    pub bounds: Seq<nat>,
}

impl BandModel {
    /// There is at least one band and the bounds strictly ascend.
    pub open spec fn wf(self) -> bool {
        &&& self.bounds.len() > 0
        &&& strictly_ascending(self.bounds)
    }

    /// Number of bins kept of a block's transform.
    pub open spec fn bin_count(self) -> nat {
        self.block_length / 2
    }

    /// The centre of `bin` is at or below the bound of `band`:
    /// `bin * sample_rate / block_length <= bounds[band]`, cross-multiplied.
    pub open spec fn within(self, bin: nat, band: int) -> bool {
        bin * self.sample_rate <= self.bounds[band] * self.block_length
    }

    /// The first band from `from` on that `bin` is within, if any.
    pub open spec fn first_band_from(self, bin: nat, from: nat) -> Option<nat>
        decreases self.bounds.len() - from,
    {
        if from >= self.bounds.len() {
            None
        } else if self.within(bin, from as int) {
            Some(from)
        } else {
            self.first_band_from(bin, from + 1)
        }
    }

    /// The band that `bin` belongs to; `None` when it lies above every bound.
    pub open spec fn band_of(self, bin: nat) -> Option<nat> {
        self.first_band_from(bin, 0)
    }

    /// The last bound reaches the Nyquist frequency, `sample_rate / 2`.
    pub open spec fn covers_nyquist(self) -> bool {
        self.bounds.len() > 0 && self.sample_rate <= 2 * self.bounds.last()
    }

    /// How many of the bins below `n` belong to `band`.
    pub open spec fn bins_in_band(self, band: nat, n: nat) -> nat
        decreases n,
    {
        if n == 0 {
            0
        } else {
            let rest = self.bins_in_band(band, (n - 1) as nat);
            if self.band_of((n - 1) as nat) == Some(band) {
                rest + 1
            } else {
                rest
            }
        }
    }

    /// How many of the bins below `n` belong to no band.
    pub open spec fn bins_dropped(self, n: nat) -> nat
        decreases n,
    {
        if n == 0 {
            0
        } else {
            let rest = self.bins_dropped((n - 1) as nat);
            if self.band_of((n - 1) as nat) is None {
                rest + 1
            } else {
                rest
            }
        }
    }

    /// How many of the bins below `n` belong to one of the first `bands` bands.
    pub open spec fn bins_assigned(self, bands: nat, n: nat) -> nat
        decreases bands,
    {
        if bands == 0 {
            0
        } else {
            self.bins_assigned((bands - 1) as nat, n) + self.bins_in_band((bands - 1) as nat, n)
        }
    }
}

/// The bounds of a band list as naturals.
pub open spec fn bounds_hz(bounds: Seq<u32>) -> Seq<nat> {
    Seq::new(bounds.len(), |i: int| bounds[i] as nat)
}

/// Why a configuration was turned down.
#[derive(Clone, Copy, Debug, PartialEq, Eq, Structural)]
pub enum ConfigError {
    /// No band was given.
    NoBands,
    /// A bound is not above the one before it.
    NotAscending,
}

/// A block whose length is not the configured one.
#[derive(Clone, Copy, Debug, PartialEq, Eq, Structural)]
pub struct WrongBlockLength {
    pub expected: usize,
    pub actual: usize,
}

/// Block length, sample rate and band bounds of an analysis.
#[derive(Debug)]
pub struct BandConfig {
    block_length: usize,
    sample_rate: usize,
    bounds: Vec<u32>,
}

impl View for BandConfig {
    type V = BandModel;

    closed spec fn view(&self) -> BandModel {
        BandModel {
            block_length: self.block_length as nat,
            sample_rate: self.sample_rate as nat,
            bounds: bounds_hz(self.bounds@),
        }
    }
}

/// The product of two machine words, which always fits 128 bits.
fn product(a: usize, b: usize) -> (p: u128)
    ensures
        p == a * b,
{
    assert(a * b <= 0xFFFF_FFFF_FFFF_FFFF * 0xFFFF_FFFF_FFFF_FFFF) by (nonlinear_arith)
        requires
            0 <= a <= 0xFFFF_FFFF_FFFF_FFFF,
            0 <= b <= 0xFFFF_FFFF_FFFF_FFFF,
    ;
    (a as u128) * (b as u128)
}

impl BandConfig {
    /// A configuration for blocks of `block_length` samples at `sample_rate`
    /// Hz, with one band per bound. The bounds must be given and must
    /// strictly ascend.
    pub fn new(block_length: usize, sample_rate: usize, bounds: Vec<u32>) -> (made: Result<
        BandConfig,
        ConfigError,
    >)
        ensures
            match made {
                Ok(config) => {
                    &&& config@.wf()
                    &&& config@.block_length == block_length
                    &&& config@.sample_rate == sample_rate
                    &&& config@.bounds == bounds_hz(bounds@)
                },
                Err(ConfigError::NoBands) => bounds.len() == 0,
                Err(ConfigError::NotAscending) => {
                    &&& bounds.len() > 0
                    &&& !strictly_ascending(bounds_hz(bounds@))
                },
            },
    {
        if bounds.len() == 0 {
            return Err(ConfigError::NoBands);
        }
        let mut next: usize = 1;
        while next < bounds.len()
            invariant
                1 <= next <= bounds.len(),
                forall|i: int, j: int| 0 <= i < j < next ==> bounds[i] < bounds[j],
            decreases bounds.len() - next,
        {
            if bounds[next - 1] >= bounds[next] {
                assert(bounds_hz(bounds@)[next - 1] >= bounds_hz(bounds@)[next as int]);
                return Err(ConfigError::NotAscending);
            }
            next += 1;
        }
        Ok(BandConfig { block_length, sample_rate, bounds })
    }

    /// Samples per block.
    pub fn block_length(&self) -> (n: usize)
        ensures
            n == self@.block_length,
    {
        self.block_length
    }

    /// Samples per second.
    pub fn sample_rate(&self) -> (rate: usize)
        ensures
            rate == self@.sample_rate,
    {
        self.sample_rate
    }

    /// Number of bands.
    pub fn band_count(&self) -> (n: usize)
        ensures
            n == self@.bounds.len(),
    {
        self.bounds.len()
    }

    /// Number of bins kept of a block's transform: half the block length.
    pub fn bin_count(&self) -> (n: usize)
        ensures
            n == self@.bin_count(),
    {
        self.block_length / 2
    }

    /// The upper bound of `band` in Hz, if there is such a band.
    pub fn upper_bound(&self, band: usize) -> (bound: Option<u32>)
        ensures
            match bound {
                Some(hz) => band < self@.bounds.len() && hz == self@.bounds[band as int],
                None => band >= self@.bounds.len(),
            },
    {
        if band < self.bounds.len() {
            Some(self.bounds[band])
        } else {
            None
        }
    }

    /// Accepts a block of exactly the configured length and no other.
    pub fn check_block(&self, len: usize) -> (checked: Result<(), WrongBlockLength>)
        ensures
            match checked {
                Ok(_) => len == self@.block_length,
                Err(e) => len != self@.block_length && e.expected == self@.block_length
                    && e.actual == len,
            },
    {
        if len == self.block_length {
            Ok(())
        } else {
            Err(WrongBlockLength { expected: self.block_length, actual: len })
        }
    }

    /// Whether the last band reaches the Nyquist frequency, so that no bin
    /// is left without a band.
    pub fn covers_nyquist(&self) -> (covered: bool)
        ensures
            covered == self@.covers_nyquist(),
    {
        let last: usize = self.bounds.len();
        if last == 0 {
            return false;
        }
        assert(self@.bounds.last() == self.bounds[last - 1]);
        let reach: u128 = product(2, self.bounds[last - 1] as usize);
        self.sample_rate as u128 <= reach
    }

    /// The band that `bin` belongs to: the first whose bound is at or above
    /// the bin's centre frequency. A bin exactly on a bound belongs to the
    /// band below it. `None` when the bin lies above every bound.
    pub fn band_of_bin(&self, bin: usize) -> (band: Option<usize>)
        ensures
            match band {
                Some(b) => self@.band_of(bin as nat) == Some(b as nat),
                None => self@.band_of(bin as nat) is None,
            },
    {
        let lhs: u128 = product(bin, self.sample_rate);
        let mut band: usize = 0;
        while band < self.bounds.len()
            invariant
                band <= self.bounds.len(),
                lhs == bin * self.sample_rate,
                self@.band_of(bin as nat) == self@.first_band_from(bin as nat, band as nat),
            decreases self.bounds.len() - band,
        {
            let rhs: u128 = product(self.bounds[band] as usize, self.block_length);
            assert(self@.bounds[band as int] == self.bounds[band as int]);
            if lhs <= rhs {
                return Some(band);
            }
            band += 1;
        }
        None
    }

    /// For each band, how many bins of a block belong to it.
    pub fn band_counts(&self) -> (counts: Vec<usize>)
        ensures
            counts.len() == self@.bounds.len(),
            forall|b: int|
                0 <= b < counts.len() ==> counts[b] == self@.bins_in_band(
                    b as nat,
                    self@.bin_count(),
                ),
    {
        let bands: usize = self.bounds.len();
        let bins: usize = self.block_length / 2;
        let mut counts: Vec<usize> = Vec::new();
        while counts.len() < bands
            invariant
                counts.len() <= bands,
                forall|b: int| 0 <= b < counts.len() ==> counts[b] == 0,
            decreases bands - counts.len(),
        {
            counts.push(0);
        }
        let mut bin: usize = 0;
        while bin < bins
            invariant
                bin <= bins,
                bands == self@.bounds.len(),
                counts.len() == bands,
                forall|b: int|
                    0 <= b < bands ==> counts[b] == self@.bins_in_band(b as nat, bin as nat),
            decreases bins - bin,
        {
            proof {
                self@.lemma_band_of_first_match(bin as nat);
            }
            match self.band_of_bin(bin) {
                Some(b) => {
                    proof {
                        self@.lemma_count_bounds(b as nat, bin as nat);
                    }
                    let seen: usize = counts[b];
                    counts.set(b, seen + 1);
                },
                None => {},
            }
            bin += 1;
        }
        counts
    }

    /// How many bins of a block belong to no band.
    pub fn dropped_bins(&self) -> (dropped: usize)
        ensures
            dropped == self@.bins_dropped(self@.bin_count()),
            self@.covers_nyquist() ==> dropped == 0,
    {
        let bins: usize = self.block_length / 2;
        let mut dropped: usize = 0;
        let mut bin: usize = 0;
        while bin < bins
            invariant
                bin <= bins,
                dropped == self@.bins_dropped(bin as nat),
                dropped <= bin,
            decreases bins - bin,
        {
            if self.band_of_bin(bin).is_none() {
                dropped += 1;
            }
            bin += 1;
        }
        proof {
            if self@.covers_nyquist() {
                self@.lemma_covered_drops_nothing(bins as nat);
            }
        }
        dropped
    }
}

impl BandModel {
    /// A bin's band is the first one it is within: it is within that band
    /// and within none before it; a bin without a band is within none.
    pub proof fn lemma_band_of_first_match(self, bin: nat)
        ensures
            match self.band_of(bin) {
                Some(b) => {
                    &&& b < self.bounds.len()
                    &&& self.within(bin, b as int)
                    &&& forall|k: int| 0 <= k < b ==> !self.within(bin, k)
                },
                None => forall|k: int| 0 <= k < self.bounds.len() ==> !self.within(bin, k),
            },
    {
        self.lemma_first_band_from(bin, 0);
    }

    proof fn lemma_first_band_from(self, bin: nat, from: nat)
        ensures
            match self.first_band_from(bin, from) {
                Some(b) => {
                    &&& from <= b < self.bounds.len()
                    &&& self.within(bin, b as int)
                    &&& forall|k: int| from <= k < b ==> !self.within(bin, k)
                },
                None => forall|k: int| from <= k < self.bounds.len() ==> !self.within(bin, k),
            },
        decreases self.bounds.len() - from,
    {
        if from < self.bounds.len() && !self.within(bin, from as int) {
            self.lemma_first_band_from(bin, from + 1);
        }
    }

    /// No band holds more of the first `n` bins than there are, nor do the
    /// dropped bins number more.
    pub proof fn lemma_count_bounds(self, band: nat, n: nat)
        ensures
            self.bins_in_band(band, n) <= n,
            self.bins_dropped(n) <= n,
        decreases n,
    {
        if n > 0 {
            self.lemma_count_bounds(band, (n - 1) as nat);
        }
    }

    /// Of no bins, none is assigned.
    proof fn lemma_assigned_none(self, bands: nat)
        ensures
            self.bins_assigned(bands, 0) == 0,
        decreases bands,
    {
        if bands > 0 {
            self.lemma_assigned_none((bands - 1) as nat);
        }
    }

    /// One more bin adds one to the count of the bands below `bands` exactly
    /// when its band is among them.
    proof fn lemma_assigned_step(self, bands: nat, n: nat)
        requires
            n > 0,
        ensures
            self.bins_assigned(bands, n) == self.bins_assigned(bands, (n - 1) as nat) + (match self.band_of(
                (n - 1) as nat,
            ) {
                Some(b) if b < bands => 1nat,
                _ => 0nat,
            }),
        decreases bands,
    {
        if bands > 0 {
            self.lemma_assigned_step((bands - 1) as nat, n);
        }
    }

    /// Every bin belongs to exactly one band or to none: over the first `n`
    /// bins, the bands' counts and the count of dropped bins add up to `n`.
    pub proof fn lemma_partition(self, n: nat)
        ensures
            self.bins_assigned(self.bounds.len(), n) + self.bins_dropped(n) == n,
        decreases n,
    {
        if n > 0 {
            self.lemma_partition((n - 1) as nat);
            self.lemma_assigned_step(self.bounds.len(), n);
            self.lemma_band_of_first_match((n - 1) as nat);
        } else {
            self.lemma_assigned_none(self.bounds.len());
        }
    }

    /// Where the last band reaches the Nyquist frequency, every bin of a
    /// block has a band.
    pub proof fn lemma_covered_drops_nothing(self, n: nat)
        requires
            self.covers_nyquist(),
            n <= self.bin_count(),
        ensures
            self.bins_dropped(n) == 0,
            forall|bin: nat| bin < n ==> self.band_of(bin) is Some,
        decreases n,
    {
        if n > 0 {
            let bin = (n - 1) as nat;
            self.lemma_covered_drops_nothing(bin);
            self.lemma_band_of_first_match(bin);
            let last = self.bounds.len() - 1;
            assert(self.within(bin, last)) by {
                let top = self.bounds[last];
                assert(2 * bin <= self.block_length);
                assert(bin * self.sample_rate <= top * self.block_length) by (nonlinear_arith)
                    requires
                        2 * bin <= self.block_length,
                        self.sample_rate <= 2 * top,
                ;
            }
        }
    }

    /// Bands follow the bins upward: a higher bin never belongs to a lower
    /// band, and above a dropped bin every bin is dropped.
    pub proof fn lemma_band_monotone(self, low: nat, high: nat)
        requires
            low <= high,
        ensures
            match (self.band_of(low), self.band_of(high)) {
                (Some(a), Some(b)) => a <= b,
                (None, Some(_)) => false,
                _ => true,
            },
    {
        self.lemma_band_of_first_match(low);
        self.lemma_band_of_first_match(high);
        assert forall|k: int| self.within(high, k) implies self.within(low, k) by {
            assert(low * self.sample_rate <= high * self.sample_rate) by (nonlinear_arith)
                requires
                    low <= high,
            ;
        }
    }
}

} // verus!
