//! The geometry of a mel filter bank.
//!
//! A bank of `K` triangular filters is laid over the bins of a spectrum by
//! `K + 2` edge bins: filter `k` rises from edge `k` to edge `k + 1` and falls
//! from there to edge `k + 2`. The caller places the edges (evenly on the mel
//! scale); this module clamps them to the spectrum and builds the weights, as
//! exact fractions.

use vstd::prelude::*;

verus! {

/// A filter weight, the fraction `num / den`.
#[derive(Clone, Copy, Debug, PartialEq, Eq, Structural)]
pub struct Weight {
    pub num: usize,
    pub den: usize,
}

impl Weight {
    /// The weight of a bin outside a filter's triangle.
    pub open spec fn zero() -> Weight {
        Weight { num: 0, den: 1 }
    }

    /// A fraction between 0 and 1.
    pub open spec fn is_fraction(self) -> bool {
        0 < self.den && self.num <= self.den
    }
}

/// An edge bin clamped to the spectrum of a transform of `fft_size` points,
/// whose last bin is `fft_size / 2`.
pub open spec fn clamp_edge(raw: usize, fft_size: usize) -> usize {
    if raw <= fft_size / 2 {
        raw
    } else {
        fft_size / 2
    }
}

/// The weight at `bin` of the triangle over `left`, `center`, `right`: it
/// rises linearly from 0 at `left` to 1 at `center` and falls linearly to 0
/// at `right`. A triangle with `left >= center` or `center >= right` is
/// degenerate and weighs 0 everywhere.
pub open spec fn triangle_weight(left: usize, center: usize, right: usize, bin: int) -> Weight {
    if left >= center || center >= right {
        Weight::zero()
    } else if left <= bin < center {
        Weight { num: (bin - left) as usize, den: (center - left) as usize }
    } else if center <= bin < right {
        Weight { num: (right - bin) as usize, den: (right - center) as usize }
    } else {
        Weight::zero()
    }
}

/// The weights of one filter over `bins` bins.
pub open spec fn triangle_filter(left: usize, center: usize, right: usize, bins: nat) -> Seq<
    Weight,
> {
    Seq::new(bins, |bin: int| triangle_weight(left, center, right, bin))
}

/// The filters of a bank of `mel_bands` bands over a transform of `fft_size`
/// points with the given edge bins: one row per band, one weight per bin
/// from 0 to `fft_size / 2`.
pub open spec fn mel_filters(fft_size: usize, mel_bands: usize, edges: Seq<usize>) -> Seq<
    Seq<Weight>,
> {
    Seq::new(
        mel_bands as nat,
        |band: int|
            triangle_filter(
                clamp_edge(edges[band], fft_size),
                clamp_edge(edges[band + 1], fft_size),
                clamp_edge(edges[band + 2], fft_size),
                (fft_size / 2 + 1) as nat,
            ),
    )
}

/// Every weight of a triangle is a fraction between 0 and 1; it is 0 at
/// `left` and outside the triangle, and 1 at `center`.
pub proof fn lemma_triangle_shape(left: usize, center: usize, right: usize, bin: int)
    ensures
        triangle_weight(left, center, right, bin).is_fraction(),
        bin <= left || bin >= right ==> triangle_weight(left, center, right, bin).num == 0,
        left < center < right ==> triangle_weight(left, center, right, center as int).num
            == triangle_weight(left, center, right, center as int).den,
        left < center < right && left < bin < right ==> triangle_weight(
            left,
            center,
            right,
            bin,
        ).num > 0,
{
}

/// A bank of triangular filters over the bins of a spectrum.
#[derive(Debug)]
pub struct MelFilterBank {
    /// Bins per filter.
    bins: usize,
    /// One row per band, one weight per bin.
    filters: Vec<Vec<Weight>>,
}

impl View for MelFilterBank {
    type V = Seq<Seq<Weight>>;

    closed spec fn view(&self) -> Seq<Seq<Weight>> {
        Seq::new(self.filters@.len(), |band: int| self.filters@[band]@)
    }
}

/// One filter's row of weights.
fn build_filter(left: usize, center: usize, right: usize, bins: usize) -> (row: Vec<Weight>)
    requires
        right < bins,
    ensures
        row@ == triangle_filter(left, center, right, bins as nat),
{
    let mut row: Vec<Weight> = Vec::new();
    while row.len() < bins
        invariant
            row.len() <= bins,
            forall|j: int| 0 <= j < row.len() ==> row[j] == Weight::zero(),
        decreases bins - row.len(),
    {
        row.push(Weight { num: 0, den: 1 });
    }
    if left >= center || center >= right {
        assert(row@ =~= triangle_filter(left, center, right, bins as nat));
        return row;
    }
    let mut j: usize = left;
    while j < center
        invariant
            left <= j <= center,
            left < center < right < bins,
            row.len() == bins,
            forall|i: int|
                0 <= i < bins ==> row[i] == if i < j {
                    triangle_weight(left, center, right, i)
                } else {
                    Weight::zero()
                },
        decreases center - j,
    {
        row.set(j, Weight { num: j - left, den: center - left });
        j += 1;
    }
    while j < right
        invariant
            center <= j <= right,
            left < center < right < bins,
            row.len() == bins,
            forall|i: int|
                0 <= i < bins ==> row[i] == if i < j {
                    triangle_weight(left, center, right, i)
                } else {
                    Weight::zero()
                },
        decreases right - j,
    {
        row.set(j, Weight { num: right - j, den: right - center });
        j += 1;
    }
    assert(row@ =~= triangle_filter(left, center, right, bins as nat));
    row
}

/// An edge bin clamped to the last bin of the spectrum.
fn clamp(raw: usize, fft_size: usize) -> (bin: usize)
    ensures
        bin == clamp_edge(raw, fft_size),
{
    if raw <= fft_size / 2 {
        raw
    } else {
        fft_size / 2
    }
}

impl MelFilterBank {
    /// Every row has `bins` weights, each a fraction between 0 and 1.
    #[verifier::type_invariant]
    spec fn well_formed(self) -> bool {
        forall|band: int|
            0 <= band < self.filters@.len() ==> {
                &&& (#[trigger] self.filters@[band])@.len() == self.bins
                &&& forall|bin: int|
                    0 <= bin < self.bins ==> (#[trigger] self.filters@[band]@[bin]).is_fraction()
            }
    }

    /// Number of bins that each filter of the bank covers.
    pub closed spec fn bins(&self) -> nat {
        self.bins as nat
    }

    /// A bank of `mel_bands` filters over a transform of `fft_size` points.
    /// `edges` holds the `mel_bands + 2` edge bins; each is clamped to
    /// `fft_size / 2`. Filter `k` is the triangle over edges `k`, `k + 1`,
    /// `k + 2`; a triangle without width stays all zero. `None` when the
    /// number of edges is not `mel_bands + 2`.
    pub fn new(fft_size: usize, mel_bands: usize, edges: &[usize]) -> (made: Option<MelFilterBank>)
        ensures
            made is Some <==> edges@.len() == mel_bands + 2,
            made is Some ==> made.unwrap()@ == mel_filters(fft_size, mel_bands, edges@),
            made is Some ==> made.unwrap().bins() == fft_size / 2 + 1,
    {
        if edges.len() < 2 || edges.len() - 2 != mel_bands {
            return None;
        }
        let bins: usize = fft_size / 2 + 1;
        let mut filters: Vec<Vec<Weight>> = Vec::new();
        let mut band: usize = 0;
        while band < mel_bands
            invariant
                band <= mel_bands,
                edges@.len() == mel_bands + 2,
                bins == fft_size / 2 + 1,
                filters.len() == band,
                forall|k: int|
                    0 <= k < band ==> (#[trigger] filters[k])@ == mel_filters(
                        fft_size,
                        mel_bands,
                        edges@,
                    )[k],
                forall|k: int|
                    0 <= k < band ==> {
                        &&& (#[trigger] filters@[k])@.len() == bins
                        &&& forall|bin: int|
                            0 <= bin < bins ==> (#[trigger] filters@[k]@[bin]).is_fraction()
                    },
            decreases mel_bands - band,
        {
            let left: usize = clamp(edges[band], fft_size);
            let center: usize = clamp(edges[band + 1], fft_size);
            let right: usize = clamp(edges[band + 2], fft_size);
            let row: Vec<Weight> = build_filter(left, center, right, bins);
            proof {
                assert forall|bin: int| 0 <= bin < bins implies (#[trigger] row@[bin]).is_fraction() by {
                    lemma_triangle_shape(left, center, right, bin);
                }
            }
            filters.push(row);
            band += 1;
        }
        let bank = MelFilterBank { bins, filters };
        assert(bank@ =~= mel_filters(fft_size, mel_bands, edges@));
        Some(bank)
    }

    /// Number of filters.
    pub fn band_count(&self) -> (n: usize)
        ensures
            n == self@.len(),
    {
        self.filters.len()
    }

    /// Number of bins that each filter covers.
    pub fn bin_count(&self) -> (n: usize)
        ensures
            n == self.bins(),
            forall|band: int| 0 <= band < self@.len() ==> (#[trigger] self@[band]).len() == n,
    {
        proof {
            use_type_invariant(self);
        }
        self.bins
    }

    /// The weight that filter `band` gives to `bin`, if both exist: a
    /// fraction between 0 and 1.
    pub fn weight(&self, band: usize, bin: usize) -> (w: Option<Weight>)
        ensures
            match w {
                Some(weight) => {
                    &&& band < self@.len()
                    &&& bin < self.bins()
                    &&& weight == self@[band as int][bin as int]
                    &&& weight.is_fraction()
                },
                None => band >= self@.len() || bin >= self.bins(),
            },
    {
        proof {
            use_type_invariant(self);
        }
        if band < self.filters.len() {
            let row: &Vec<Weight> = &self.filters[band];
            if bin < row.len() {
                return Some(row[bin]);
            }
        }
        None
    }
}

/// Building a bank twice from the same parameters gives the same weights.
pub proof fn lemma_construction_repeatable(
    first: MelFilterBank,
    second: MelFilterBank,
    fft_size: usize,
    mel_bands: usize,
    edges: Seq<usize>,
)
    requires
        first@ == mel_filters(fft_size, mel_bands, edges),
        second@ == mel_filters(fft_size, mel_bands, edges),
    ensures
        first@ == second@,
{
}

} // verus!
