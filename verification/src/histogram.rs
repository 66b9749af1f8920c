use vstd::prelude::*;

verus! {

/// Colour quantisation by histogram clustering: every channel is clustered
/// in one dimension, the pixels are binned by their three cluster indices,
/// and the fullest bins seed a clustering in RGB space.
pub struct ColorQuantizationHistogram {
    /// Number of colours wanted.
    levels: usize,
    /// Most rounds of the RGB clustering.
    iterations: usize,
}

impl ColorQuantizationHistogram {
    pub closed spec fn spec_levels(&self) -> usize {
        self.levels
    }

    pub closed spec fn spec_iterations(&self) -> usize {
        self.iterations
    }

    pub fn new(levels: usize) -> (q: ColorQuantizationHistogram)
        ensures
            q.spec_levels() == levels,
            q.spec_iterations() == 100,
    {
        ColorQuantizationHistogram { levels, iterations: 100 }
    }

    pub fn levels(&self) -> (l: usize)
        ensures
            l == self.spec_levels(),
    {
        self.levels
    }

    pub fn iterations(&self) -> (n: usize)
        ensures
            n == self.spec_iterations(),
    {
        self.iterations
    }
}

/// Number of pixels (chunks of four bytes, the last one possibly shorter)
/// in an RGBA byte buffer of length `len`.
pub open spec fn pixel_count(len: nat) -> nat {
    (len + 3) / 4
}

/// A buffer whose last chunk still holds the three colour bytes.
pub open spec fn whole_pixels(len: nat) -> bool {
    len % 4 == 0 || len % 4 == 3
}

/// Number of the first `n` pixels whose channel `c` has value `v`.
pub open spec fn channel_count(data: Seq<u8>, c: int, v: int, n: nat) -> nat
    decreases n,
{
    if n == 0 {
        0
    } else {
        channel_count(data, c, v, (n - 1) as nat) + if data[4 * (n - 1) + c] == v {
            1nat
        } else {
            0nat
        }
    }
}

/// Sum over the values `v < m` of `channel_count(data, c, v, n)`.
pub open spec fn channel_total(data: Seq<u8>, c: int, n: nat, m: nat) -> nat
    decreases m,
{
    if m == 0 {
        0
    } else {
        channel_total(data, c, n, (m - 1) as nat) + channel_count(data, c, (m - 1) as int, n)
    }
}

proof fn lemma_channel_count_bound(data: Seq<u8>, c: int, v: int, n: nat)
    ensures
        channel_count(data, c, v, n) <= n,
    decreases n,
{
    if n > 0 {
        lemma_channel_count_bound(data, c, v, (n - 1) as nat);
    }
}

proof fn lemma_channel_total_step(data: Seq<u8>, c: int, n: nat, m: nat)
    ensures
        channel_total(data, c, n + 1, m) == channel_total(data, c, n, m) + if data[4 * n
            + c] < m {
            1nat
        } else {
            0nat
        },
    decreases m,
{
    if m > 0 {
        lemma_channel_total_step(data, c, n, (m - 1) as nat);
    }
}

/// Every pixel is counted exactly once in the histogram of each channel:
/// the 256 bins of a channel add up to the number of pixels.
pub proof fn lemma_histogram_counts_every_pixel(data: Seq<u8>, c: int, n: nat)
    ensures
        channel_total(data, c, n, 256) == n,
    decreases n,
{
    if n == 0 {
        assert(channel_total(data, c, 0, 256) == 0) by {
            lemma_channel_total_zero(data, c, 256);
        }
    } else {
        lemma_histogram_counts_every_pixel(data, c, (n - 1) as nat);
        lemma_channel_total_step(data, c, (n - 1) as nat, 256);
    }
}

/// Every pixel is seen: the histogram of channel `c` counts the value
/// that channel `c` of each of the first `n` pixels has at least once.
pub proof fn lemma_histogram_sees_every_pixel(data: Seq<u8>, c: int, n: nat, k: int)
    requires
        0 <= k < n,
    ensures
        channel_count(data, c, data[4 * k + c] as int, n) >= 1,
    decreases n,
{
    if k < n - 1 {
        lemma_histogram_sees_every_pixel(data, c, (n - 1) as nat, k);
    }
}

proof fn lemma_channel_total_zero(data: Seq<u8>, c: int, m: nat)
    ensures
        channel_total(data, c, 0, m) == 0,
    decreases m,
{
    if m > 0 {
        lemma_channel_total_zero(data, c, (m - 1) as nat);
    }
}

proof fn lemma_pixel_in_bounds(len: nat, k: nat)
    requires
        whole_pixels(len),
        k < pixel_count(len),
    ensures
        4 * k + 2 < len,
{
}

impl ColorQuantizationHistogram {
    /// The histograms of the red, green and blue channels of an RGBA buffer.
    pub fn calculate_histograms(data: &[u8]) -> (hst: [[u32; 256]; 3])
        requires
            whole_pixels(data@.len()),
            pixel_count(data@.len()) <= u32::MAX,
        ensures
            forall|c: int, v: int|
                0 <= c < 3 && 0 <= v < 256 ==> #[trigger] hst[c][v] == channel_count(
                    data@,
                    c,
                    v,
                    pixel_count(data@.len()),
                ),
            forall|k: int, c: int|
                0 <= k < pixel_count(data@.len()) && 0 <= c < 3 ==> #[trigger] hst[c][data@[4 * k
                    + c] as int] >= 1,
    {
        let mut rarr: [u32; 256] = [0; 256];
        let mut garr: [u32; 256] = [0; 256];
        let mut barr: [u32; 256] = [0; 256];
        let n: usize = data.len() / 4 + if data.len() % 4 != 0 {
            1
        } else {
            0
        };
        let len = data.len();
        let mut k: usize = 0;
        while k < n
            invariant
                len == data@.len(),
                n == pixel_count(data@.len()),
                whole_pixels(data@.len()),
                n <= u32::MAX,
                k <= n,
                forall|v: int| 0 <= v < 256 ==> #[trigger] rarr[v] == channel_count(data@, 0, v, k as nat),
                forall|v: int| 0 <= v < 256 ==> #[trigger] garr[v] == channel_count(data@, 1, v, k as nat),
                forall|v: int| 0 <= v < 256 ==> #[trigger] barr[v] == channel_count(data@, 2, v, k as nat),
            decreases n - k,
        {
            proof {
                lemma_pixel_in_bounds(data@.len(), k as nat);
            }
            let i = 4 * k;
            let r = data[i] as usize;
            let g = data[i + 1] as usize;
            let b = data[i + 2] as usize;
            proof {
                lemma_channel_count_bound(data@, 0, r as int, k as nat);
                lemma_channel_count_bound(data@, 1, g as int, k as nat);
                lemma_channel_count_bound(data@, 2, b as int, k as nat);
            }
            rarr[r] = rarr[r] + 1;
            garr[g] = garr[g] + 1;
            barr[b] = barr[b] + 1;
            assert forall|v: int| 0 <= v < 256 implies #[trigger] rarr[v] == channel_count(data@, 0, v, (k + 1) as nat) by {}
            assert forall|v: int| 0 <= v < 256 implies #[trigger] garr[v] == channel_count(data@, 1, v, (k + 1) as nat) by {}
            assert forall|v: int| 0 <= v < 256 implies #[trigger] barr[v] == channel_count(data@, 2, v, (k + 1) as nat) by {}
            k = k + 1;
        }
        let hst = [rarr, garr, barr];
        assert forall|k: int, c: int|
            0 <= k < pixel_count(data@.len()) && 0 <= c < 3 implies #[trigger] hst[c][data@[4 * k
                + c] as int] >= 1 by {
            lemma_pixel_in_bounds(data@.len(), k as nat);
            lemma_histogram_sees_every_pixel(data@, c, pixel_count(data@.len()), k);
        }
        hst
    }
}

/// The span of a channel histogram that holds pixels, as `(lo, hi)`: `hi` is
/// the highest occupied value, or 0 when no value above 0 is occupied, and
/// then `lo` is 0 too; otherwise `lo` is the lowest occupied value.
pub fn occupied_span(arr: &[u32; 256]) -> (span: (usize, usize))
    ensures
        span.1 < 256,
        forall|v: int| span.1 < v < 256 ==> arr[v] == 0,
        span.1 > 0 ==> arr[span.1 as int] != 0,
        span.1 == 0 ==> span.0 == 0,
        span.1 > 0 ==> span.0 <= span.1 && arr[span.0 as int] != 0,
        forall|v: int| 0 <= v < span.0 ==> arr[v] == 0,
{
    let mut min: usize = 0;
    let mut max: usize = 255;
    while arr[max] == 0 && min < max
        invariant
            min == 0,
            max < 256,
            forall|v: int| max < v < 256 ==> arr[v] == 0,
        decreases max,
    {
        max = max - 1;
    }
    if min == max {
        return (0, 0);
    }
    while arr[min] == 0
        invariant
            min <= max < 256,
            arr[max as int] != 0,
            forall|v: int| 0 <= v < min ==> arr[v] == 0,
        decreases max - min,
    {
        min = min + 1;
    }
    (min, max)
}

/// The lookup entry of value `j` after the first `n` clusters were written:
/// the index of the last of them whose inclusive range holds `j`, scaled
/// by `f`, or 0 when none holds it.
pub open spec fn lookup_entry(ranges: Seq<(usize, usize)>, f: u16, j: int, n: nat) -> u16
    decreases n,
{
    if n == 0 {
        0
    } else if ranges[n - 1].0 <= j <= ranges[n - 1].1 {
        (f * ((n - 1) as u16)) as u16
    } else {
        lookup_entry(ranges, f, j, (n - 1) as nat)
    }
}

/// Every non-empty cluster range lies within the 256 values and its scaled
/// index fits a `u16`.
pub open spec fn lookup_fits(ranges: Seq<(usize, usize)>, f: u16) -> bool {
    forall|i: int|
        0 <= i < ranges.len() && ranges[i].0 <= ranges[i].1 ==> ranges[i].1 < 256 && f * (
        i as u16) <= u16::MAX
}

impl ColorQuantizationHistogram {
    /// Turns the value ranges `(min, max)` of the clusters of one channel into
    /// a table from value to cluster index times `f`.
    pub fn histogram_to_lookup_by_index(arr: &[(usize, usize)], f: u16) -> (lut: [u16; 256])
        requires
            lookup_fits(arr@, f),
        ensures
            forall|j: int| 0 <= j < 256 ==> #[trigger] lut[j] == lookup_entry(arr@, f, j, arr@.len()),
            forall|i: int, j: int|
                #![trigger lut[j], arr@[i]]
                0 <= i < arr@.len() && 0 <= j < 256 && arr@[i].0 <= j <= arr@[i].1 && (forall|
                    i2: int,
                | #![trigger arr@[i2]] i < i2 < arr@.len() ==> !(arr@[i2].0 <= j <= arr@[i2].1)) ==> lut[j] == f * (
                i as u16),
            forall|j: int|
                0 <= j < 256 && (forall|i: int|
                    #![trigger arr@[i]] 0 <= i < arr@.len() ==> !(arr@[i].0 <= j <= arr@[i].1)) ==> #[trigger] lut[j]
                    == 0,
    {
        let mut arr2: [u16; 256] = [0; 256];
        let n = arr.len();
        let mut i: usize = 0;
        while i < n
            invariant
                n == arr@.len(),
                i <= n,
                lookup_fits(arr@, f),
                forall|j: int| 0 <= j < 256 ==> #[trigger] arr2[j] == lookup_entry(arr@, f, j, i as nat),
            decreases n - i,
        {
            let (lo, hi) = arr[i];
            if lo <= hi {
                let v: u16 = f * (i as u16);
                let mut j: usize = lo;
                while j <= hi
                    invariant
                        lo <= j <= hi + 1,
                        hi < 256,
                        v == (f * (i as u16)) as u16,
                        forall|t: int|
                            0 <= t < 256 ==> #[trigger] arr2[t] == if lo <= t < j {
                                v
                            } else {
                                lookup_entry(arr@, f, t, i as nat)
                            },
                    decreases hi + 1 - j,
                {
                    arr2[j] = v;
                    j = j + 1;
                }
            }
            assert forall|t: int| 0 <= t < 256 implies #[trigger] arr2[t] == lookup_entry(
                arr@,
                f,
                t,
                (i + 1) as nat,
            ) by {}
            i = i + 1;
        }
        proof {
            assert forall|j: int| 0 <= j < 256 implies #[trigger] arr2[j] == lookup_entry(
                arr@,
                f,
                j,
                arr@.len(),
            ) && lookup_picks_last_cluster(arr@, f, j) by {
                lemma_lookup_picks_last_cluster(arr@, f, j, arr@.len());
            }
        }
        arr2
    }
}

/// Value `j` maps to the index, times `f`, of the last cluster whose range
/// holds it, and to 0 when no range holds it.
pub open spec fn lookup_picks_last_cluster(ranges: Seq<(usize, usize)>, f: u16, j: int) -> bool {
    &&& forall|i: int|
        0 <= i < ranges.len() && #[trigger] ranges[i].0 <= j <= ranges[i].1 && (forall|i2: int|
            #![trigger ranges[i2]] i < i2 < ranges.len() ==> !(ranges[i2].0 <= j <= ranges[i2].1)) ==> lookup_entry(
            ranges,
            f,
            j,
            ranges.len(),
        ) == f * (i as u16)
    &&& (forall|i: int| #![trigger ranges[i]] 0 <= i < ranges.len() ==> !(ranges[i].0 <= j <= ranges[i].1))
        ==> lookup_entry(ranges, f, j, ranges.len()) == 0
}

/// The lookup table sends every value to its cluster: the last cluster
/// whose inclusive range `lo ..= hi` holds the value (a one-value range
/// `lo == hi` included) gives its index times `f`; a value that no range
/// holds gets 0.
pub proof fn lemma_lookup_picks_last_cluster(ranges: Seq<(usize, usize)>, f: u16, j: int, n: nat)
    requires
        n <= ranges.len(),
        lookup_fits(ranges, f),
    ensures
        forall|i: int|
            0 <= i < n && #[trigger] ranges[i].0 <= j <= ranges[i].1 && (forall|i2: int|
                #![trigger ranges[i2]] i < i2 < n ==> !(ranges[i2].0 <= j <= ranges[i2].1)) ==> lookup_entry(
                ranges,
                f,
                j,
                n,
            ) == f * (i as u16),
        (forall|i: int| #![trigger ranges[i]] 0 <= i < n ==> !(ranges[i].0 <= j <= ranges[i].1)) ==> lookup_entry(
            ranges,
            f,
            j,
            n,
        ) == 0,
        n == ranges.len() ==> lookup_picks_last_cluster(ranges, f, j),
    decreases n,
{
    if n > 0 {
        lemma_lookup_picks_last_cluster(ranges, f, j, (n - 1) as nat);
        let k = n - 1;
        if ranges[k].0 <= j <= ranges[k].1 {
            assert(f * (k as u16) <= u16::MAX);
            assert forall|i: int|
                0 <= i < n && #[trigger] ranges[i].0 <= j <= ranges[i].1 && (forall|i2: int|
                    #![trigger ranges[i2]] i < i2 < n ==> !(ranges[i2].0 <= j <= ranges[i2].1)) implies lookup_entry(
                ranges,
                f,
                j,
                n,
            ) == f * (i as u16) by {
                if i < k {
                    assert(!(ranges[k].0 <= j <= ranges[k].1));
                }
            }
        } else {
            assert forall|i: int|
                0 <= i < n && #[trigger] ranges[i].0 <= j <= ranges[i].1 && (forall|i2: int|
                    #![trigger ranges[i2]] i < i2 < n ==> !(ranges[i2].0 <= j <= ranges[i2].1)) implies lookup_entry(
                ranges,
                f,
                j,
                n,
            ) == f * (i as u16) by {
                assert(i < k);
                assert forall|i2: int| #![trigger ranges[i2]] i < i2 < k implies !(ranges[i2].0 <= j <= ranges[i2].1) by {
                    assert(i < i2 < n);
                }
            }
        }
    }
}

proof fn lemma_lookup_entry_bound(ranges: Seq<(usize, usize)>, f: u16, j: int, n: nat)
    requires
        n <= ranges.len(),
        ranges.len() <= 65536,
        lookup_fits(ranges, f),
    ensures
        n == 0 ==> lookup_entry(ranges, f, j, n) == 0,
        n > 0 ==> lookup_entry(ranges, f, j, n) <= f * (n - 1),
    decreases n,
{
    if n > 0 {
        lemma_lookup_entry_bound(ranges, f, j, (n - 1) as nat);
        let i = n - 1;
        assert(((i as u16) as int) == i);
        if ranges[i].0 <= j <= ranges[i].1 {
            assert(f * (i as u16) <= u16::MAX);
        } else if n > 1 {
            assert(f * (n - 2) <= f * (n - 1)) by (nonlinear_arith)
                requires
                    n > 1,
                    f >= 0,
            ;
        } else {
            assert(0 <= f * (n - 1)) by (nonlinear_arith)
                requires
                    n >= 1,
                    f >= 0,
            ;
        }
    }
}

/// The three channel tables address every bin inside the bin histogram:
/// with `nr`, `ng`, `nb` clusters and the factors 1, `nr` and `nr * ng`,
/// every sum of entries lies below `nr * ng * nb`.
pub proof fn lemma_bins_within_bin_count(
    red: Seq<(usize, usize)>,
    green: Seq<(usize, usize)>,
    blue: Seq<(usize, usize)>,
    r: int,
    g: int,
    b: int,
)
    requires
        red.len() > 0,
        green.len() > 0,
        blue.len() > 0,
        red.len() * green.len() * blue.len() < 65536,
        lookup_fits(red, 1),
        lookup_fits(green, red.len() as u16),
        lookup_fits(blue, (red.len() * green.len()) as u16),
    ensures
        lookup_entry(red, 1, r, red.len()) + lookup_entry(green, red.len() as u16, g, green.len())
            + lookup_entry(blue, (red.len() * green.len()) as u16, b, blue.len()) < red.len()
            * green.len() * blue.len(),
{
    let nr = red.len() as int;
    let ng = green.len() as int;
    let nb = blue.len() as int;
    assert(nr * ng <= nr * ng * nb) by (nonlinear_arith)
        requires
            nb >= 1,
            nr * ng >= 0,
    ;
    assert(nr <= nr * ng) by (nonlinear_arith)
        requires
            ng >= 1,
            nr >= 0,
    ;
    assert(ng <= nr * ng * nb) by (nonlinear_arith)
        requires
            nb >= 1,
            nr >= 1,
            ng >= 0,
    ;
    assert(nb <= nr * ng * nb) by (nonlinear_arith)
        requires
            ng >= 1,
            nr >= 1,
            nb >= 0,
    ;
    assert(((red.len() as u16) as int) == nr);
    assert((((red.len() * green.len()) as u16) as int) == nr * ng);
    lemma_lookup_entry_bound(red, 1, r, red.len());
    lemma_lookup_entry_bound(green, red.len() as u16, g, green.len());
    lemma_lookup_entry_bound(blue, (red.len() * green.len()) as u16, b, blue.len());
    assert((nr - 1) + nr * (ng - 1) + nr * ng * (nb - 1) == nr * ng * nb - 1) by (nonlinear_arith);
}

/// The bin of pixel `k`: the sum of the table entries of its three channels.
pub open spec fn bin_of(data: Seq<u8>, rarr: Seq<u16>, garr: Seq<u16>, barr: Seq<u16>, k: int) -> int {
    rarr[data[4 * k] as int] + garr[data[4 * k + 1] as int] + barr[data[4 * k + 2] as int]
}

/// Maps every pixel to its bin `rarr[r] + garr[g] + barr[b]`.
pub fn map_pixels_to_bins(data: &[u8], rarr: &[u16; 256], garr: &[u16; 256], barr: &[u16; 256]) -> (rgb: Vec<u16>)
    requires
        whole_pixels(data@.len()),
        forall|k: int|
            0 <= k < pixel_count(data@.len()) ==> bin_of(data@, rarr@, garr@, barr@, k)
                <= u16::MAX,
    ensures
        rgb@.len() == pixel_count(data@.len()),
        forall|k: int|
            0 <= k < rgb@.len() ==> #[trigger] rgb@[k] == bin_of(data@, rarr@, garr@, barr@, k),
{
    let len = data.len();
    let n: usize = len / 4 + if len % 4 != 0 {
        1
    } else {
        0
    };
    let mut rgb: Vec<u16> = Vec::with_capacity(len / 4);
    let mut k: usize = 0;
    while k < n
        invariant
            len == data@.len(),
            whole_pixels(data@.len()),
            n == pixel_count(data@.len()),
            k <= n,
            rgb@.len() == k,
            forall|q: int|
                0 <= q < pixel_count(data@.len()) ==> bin_of(data@, rarr@, garr@, barr@, q)
                    <= u16::MAX,
            forall|q: int| 0 <= q < k ==> #[trigger] rgb@[q] == bin_of(data@, rarr@, garr@, barr@, q),
        decreases n - k,
    {
        proof {
            lemma_pixel_in_bounds(data@.len(), k as nat);
        }
        let i = 4 * k;
        assert(bin_of(data@, rarr@, garr@, barr@, k as int) <= u16::MAX);
        let v = rarr[data[i] as usize] + garr[data[i + 1] as usize] + barr[data[i + 2] as usize];
        rgb.push(v);
        k = k + 1;
    }
    rgb
}

/// Number of the first `n` entries of `s` equal to `b`.
pub open spec fn occurrences(s: Seq<u16>, b: int, n: nat) -> nat
    decreases n,
{
    if n == 0 {
        0
    } else {
        occurrences(s, b, (n - 1) as nat) + if s[n - 1] == b {
            1nat
        } else {
            0nat
        }
    }
}

proof fn lemma_occurrences_bound(s: Seq<u16>, b: int, n: nat)
    ensures
        occurrences(s, b, n) <= n,
    decreases n,
{
    if n > 0 {
        lemma_occurrences_bound(s, b, (n - 1) as nat);
    }
}

proof fn lemma_occurrences_positive(s: Seq<u16>, j: int, n: nat)
    requires
        0 <= j < n,
    ensures
        occurrences(s, s[j] as int, n) > 0,
    decreases n,
{
    if j < n - 1 {
        lemma_occurrences_positive(s, j, (n - 1) as nat);
    }
}

/// Sum of the counts of bins `0 .. m` among the first `n` entries of `s`.
pub open spec fn bins_total(s: Seq<u16>, n: nat, m: nat) -> nat
    decreases m,
{
    if m == 0 {
        0
    } else {
        bins_total(s, n, (m - 1) as nat) + occurrences(s, m - 1, n)
    }
}

proof fn lemma_bins_total_zero(s: Seq<u16>, m: nat)
    ensures
        bins_total(s, 0, m) == 0,
    decreases m,
{
    if m > 0 {
        lemma_bins_total_zero(s, (m - 1) as nat);
    }
}

proof fn lemma_bins_total_step(s: Seq<u16>, n: nat, m: nat)
    requires
        n > 0,
    ensures
        bins_total(s, n, m) == bins_total(s, (n - 1) as nat, m) + if s[n - 1] < m {
            1nat
        } else {
            0nat
        },
    decreases m,
{
    if m > 0 {
        lemma_bins_total_step(s, n, (m - 1) as nat);
    }
}

/// Every pixel falls into exactly one bin: when all bins lie below
/// `nbins`, the counts of the `nbins` bins add up to the number of pixels.
pub proof fn lemma_bins_count_every_pixel(s: Seq<u16>, nbins: nat, n: nat)
    requires
        n <= s.len(),
        forall|i: int| 0 <= i < n ==> s[i] < nbins,
    ensures
        bins_total(s, n, nbins) == n,
    decreases n,
{
    if n == 0 {
        lemma_bins_total_zero(s, nbins);
    } else {
        lemma_bins_count_every_pixel(s, nbins, (n - 1) as nat);
        lemma_bins_total_step(s, n, nbins);
    }
}

/// The histogram of the bins: how many pixels fall into each of `nbins` bins.
pub fn bin_histogram(rgb: &[u16], nbins: usize) -> (hist: Vec<usize>)
    requires
        forall|j: int| 0 <= j < rgb@.len() ==> rgb@[j] < nbins,
    ensures
        hist@.len() == nbins,
        forall|b: int| 0 <= b < nbins ==> #[trigger] hist@[b] == occurrences(rgb@, b, rgb@.len()),
{
    let mut hist: Vec<usize> = Vec::new();
    let mut b: usize = 0;
    while b < nbins
        invariant
            b <= nbins,
            hist@.len() == b,
            forall|q: int| 0 <= q < b ==> hist@[q] == 0,
        decreases nbins - b,
    {
        hist.push(0);
        b = b + 1;
    }
    let n = rgb.len();
    let mut i: usize = 0;
    while i < n
        invariant
            n == rgb@.len(),
            i <= n,
            hist@.len() == nbins,
            forall|j: int| 0 <= j < rgb@.len() ==> rgb@[j] < nbins,
            forall|q: int| 0 <= q < nbins ==> #[trigger] hist@[q] == occurrences(rgb@, q, i as nat),
        decreases n - i,
    {
        let k = rgb[i] as usize;
        proof {
            lemma_occurrences_bound(rgb@, k as int, i as nat);
        }
        hist.set(k, hist[k] + 1);
        assert forall|q: int| 0 <= q < nbins implies #[trigger] hist@[q] == occurrences(
            rgb@,
            q,
            (i + 1) as nat,
        ) by {}
        i = i + 1;
    }
    hist
}

/// The bin of pixel `k` when the channels are clustered into the value
/// ranges `red`, `green` and `blue`: red index + #reds * green index +
/// #reds * #greens * blue index.
pub open spec fn pixel_bin(
    data: Seq<u8>,
    red: Seq<(usize, usize)>,
    green: Seq<(usize, usize)>,
    blue: Seq<(usize, usize)>,
    k: int,
) -> int {
    lookup_entry(red, 1, data[4 * k] as int, red.len()) + lookup_entry(
        green,
        red.len() as u16,
        data[4 * k + 1] as int,
        green.len(),
    ) + lookup_entry(blue, (red.len() * green.len()) as u16, data[4 * k + 2] as int, blue.len())
}

/// The clusters of the three channels: none is empty, the bins they span
/// can be counted in a `u16`, and every range fits the lookup tables.
pub open spec fn channel_clusters_fit(
    red: Seq<(usize, usize)>,
    green: Seq<(usize, usize)>,
    blue: Seq<(usize, usize)>,
) -> bool {
    &&& red.len() > 0
    &&& green.len() > 0
    &&& blue.len() > 0
    &&& red.len() * green.len() * blue.len() < 65536
    &&& lookup_fits(red, 1)
    &&& lookup_fits(green, red.len() as u16)
    &&& lookup_fits(blue, (red.len() * green.len()) as u16)
}

/// Bins every pixel by the clusters of its three channels, given as
/// inclusive value ranges, and counts the pixels of every bin. Returns the
/// bin of every pixel and the histogram of the bins.
pub fn bin_pixels(
    data: &[u8],
    red: &[(usize, usize)],
    green: &[(usize, usize)],
    blue: &[(usize, usize)],
) -> (res: (Vec<u16>, Vec<usize>))
    requires
        whole_pixels(data@.len()),
        channel_clusters_fit(red@, green@, blue@),
    ensures
        res.0@.len() == pixel_count(data@.len()),
        forall|k: int|
            0 <= k < res.0@.len() ==> #[trigger] res.0@[k] == pixel_bin(
                data@,
                red@,
                green@,
                blue@,
                k,
            ),
        forall|k: int|
            0 <= k < res.0@.len() ==> #[trigger] res.0@[k] < red@.len() * green@.len() * blue@.len(),
        res.1@.len() == red@.len() * green@.len() * blue@.len(),
        forall|b: int|
            0 <= b < res.1@.len() ==> #[trigger] res.1@[b] == occurrences(res.0@, b, res.0@.len()),
{
    let f1 = red.len();
    assert(f1 * green@.len() <= f1 * green@.len() * blue@.len()) by (nonlinear_arith)
        requires
            blue@.len() > 0,
    ;
    assert(f1 <= f1 * green@.len()) by (nonlinear_arith)
        requires
            green@.len() > 0,
    ;
    let f2 = f1 * green.len();
    let nbins = f2 * blue.len();
    let rarr = ColorQuantizationHistogram::histogram_to_lookup_by_index(red, 1);
    let garr = ColorQuantizationHistogram::histogram_to_lookup_by_index(green, f1 as u16);
    let barr = ColorQuantizationHistogram::histogram_to_lookup_by_index(blue, f2 as u16);
    assert forall|k: int|
        0 <= k < pixel_count(data@.len()) implies bin_of(data@, rarr@, garr@, barr@, k) < nbins
        && bin_of(data@, rarr@, garr@, barr@, k) == pixel_bin(data@, red@, green@, blue@, k) by {
        lemma_pixel_in_bounds(data@.len(), k as nat);
        lemma_bins_within_bin_count(
            red@,
            green@,
            blue@,
            data@[4 * k] as int,
            data@[4 * k + 1] as int,
            data@[4 * k + 2] as int,
        );
    }
    let rgb = map_pixels_to_bins(data, &rarr, &garr, &barr);
    let hist = bin_histogram(rgb.as_slice(), nbins);
    (rgb, hist)
}

/// Bin `a` goes before bin `b`: it holds more pixels, or as many and has the
/// lower index (a stable sort by decreasing count).
pub open spec fn goes_before(hist: Seq<usize>, a: int, b: int) -> bool {
    hist[a] > hist[b] || (hist[a] == hist[b] && a < b)
}

/// `order` lists every non-empty bin of `hist` once, fullest first, bins
/// of equal count by increasing index.
pub open spec fn is_count_order(hist: Seq<usize>, order: Seq<usize>) -> bool {
    &&& forall|i: int, j: int|
        0 <= i < j < order.len() ==> goes_before(hist, order[i] as int, order[j] as int)
    &&& forall|i: int| 0 <= i < order.len() ==> order[i] < hist.len() && hist[order[i] as int] > 0
    &&& forall|b: int| 0 <= b < hist.len() && hist[b] > 0 ==> order.contains(b as usize)
}

proof fn lemma_insert_in_count_order(hist: Seq<usize>, order: Seq<usize>, p: int, b: usize)
    requires
        b < hist.len(),
        hist[b as int] > 0,
        0 <= p <= order.len(),
        forall|i: int, j: int|
            0 <= i < j < order.len() ==> goes_before(hist, order[i] as int, order[j] as int),
        forall|i: int| 0 <= i < order.len() ==> order[i] < b && hist[order[i] as int] > 0,
        forall|q: int| 0 <= q < p ==> hist[order[q] as int] >= hist[b as int],
        p < order.len() ==> hist[order[p] as int] < hist[b as int],
    ensures
        ({
            let o2 = order.insert(p, b);
            &&& forall|i: int, j: int|
                0 <= i < j < o2.len() ==> goes_before(hist, o2[i] as int, o2[j] as int)
            &&& forall|i: int| 0 <= i < o2.len() ==> o2[i] < b + 1 && hist[o2[i] as int] > 0
            &&& forall|c: usize| order.contains(c) ==> o2.contains(c)
            &&& o2.contains(b)
        }),
{
    order.insert_ensures(p, b);
    let o2 = order.insert(p, b);
    if p < order.len() {
        assert forall|q: int| p <= q < order.len() implies hist[order[q] as int] < hist[b as int] by {
            if q > p {
                assert(goes_before(hist, order[p] as int, order[q] as int));
            }
        }
    }
    assert forall|c: usize| order.contains(c) implies o2.contains(c) by {
        let q = choose|q: int| 0 <= q < order.len() && order[q] == c;
        if q < p {
            assert(o2[q] == c);
        } else {
            assert(o2[q + 1] == c);
        }
    }
    assert(o2[p] == b);
}

/// The non-empty bins of `hist`, sorted stably by decreasing count.
pub fn bins_by_count(hist: &[usize]) -> (order: Vec<usize>)
    ensures
        is_count_order(hist@, order@),
{
    let n = hist.len();
    let mut order: Vec<usize> = Vec::new();
    let mut b: usize = 0;
    while b < n
        invariant
            n == hist@.len(),
            b <= n,
            forall|i: int, j: int|
                0 <= i < j < order@.len() ==> goes_before(
                    hist@,
                    order@[i] as int,
                    order@[j] as int,
                ),
            forall|i: int| 0 <= i < order@.len() ==> order@[i] < b && hist@[order@[i] as int] > 0,
            forall|c: int| 0 <= c < b && hist@[c] > 0 ==> order@.contains(c as usize),
        decreases n - b,
    {
        if hist[b] > 0 {
            let mut p: usize = 0;
            while p < order.len() && hist[order[p]] >= hist[b]
                invariant
                    p <= order@.len(),
                    n == hist@.len(),
                    b < n,
                    forall|i: int| 0 <= i < order@.len() ==> order@[i] < b,
                    forall|q: int| 0 <= q < p ==> hist@[order@[q] as int] >= hist@[b as int],
                decreases order@.len() - p,
            {
                p = p + 1;
            }
            proof {
                lemma_insert_in_count_order(hist@, order@, p as int, b);
            }
            let ghost old_order = order@;
            order.insert(p, b);
            assert forall|c: int| 0 <= c < b + 1 && hist@[c] > 0 implies order@.contains(
                c as usize,
            ) by {
                if c < b {
                    assert(old_order.contains(c as usize));
                }
            }
        }
        b = b + 1;
    }
    order
}

/// The bins that seed the RGB clustering: the first `levels` of `order`.
pub fn initial_centroids(order: &[usize], levels: usize) -> (seeds: Vec<usize>)
    ensures
        seeds@ == order@.take(if order@.len() < levels { order@.len() as int } else { levels as int }),
{
    let n = if order.len() < levels {
        order.len()
    } else {
        levels
    };
    let mut seeds: Vec<usize> = Vec::new();
    let mut i: usize = 0;
    while i < n
        invariant
            n <= order@.len(),
            i <= n,
            seeds@ == order@.take(i as int),
        decreases n - i,
    {
        seeds.push(order[i]);
        assert(seeds@ =~= order@.take((i + 1) as int));
        i = i + 1;
    }
    seeds
}

/// An RGB colour.
#[derive(Clone, Copy, PartialEq, Eq, Structural, Debug)]
pub struct Color {
    pub r: u8,
    pub g: u8,
    pub b: u8,
}

/// The position of the last entry equal to `k` among the first `n`
/// entries of `order`, or -1 when there is none.
pub open spec fn slot_of(order: Seq<usize>, k: int, n: nat) -> int
    decreases n,
{
    if n == 0 {
        -1
    } else if order[n - 1] == k {
        n - 1
    } else {
        slot_of(order, k, (n - 1) as nat)
    }
}

/// The colour that bin `k` ends with: the colour of the centroid that its
/// entry in `order` was last assigned to, or its own colour when it has no
/// entry (it holds no pixel).
pub open spec fn resolved_color(
    own: Seq<Color>,
    order: Seq<usize>,
    assignment: Seq<usize>,
    centroids: Seq<Color>,
    k: int,
) -> Color {
    let p = slot_of(order, k, order.len());
    if p >= 0 {
        centroids[assignment[p] as int]
    } else {
        own[k]
    }
}

proof fn lemma_slot_of(order: Seq<usize>, k: int, n: nat)
    requires
        n <= order.len(),
    ensures
        slot_of(order, k, n) == -1 <==> (forall|q: int| 0 <= q < n ==> order[q] != k),
        slot_of(order, k, n) >= 0 ==> slot_of(order, k, n) < n && order[slot_of(order, k, n)]
            == k,
        no_repeats(order) ==> forall|q: int|
            0 <= q < n && order[q] == k ==> slot_of(order, k, n) == q,
    decreases n,
{
    if n > 0 {
        lemma_slot_of(order, k, (n - 1) as nat);
    }
}

/// Entries of `order` are distinct.
pub open spec fn no_repeats(order: Seq<usize>) -> bool {
    forall|i: int, j: int| 0 <= i < j < order.len() ==> order[i] != order[j]
}

/// The final colour of every bin: a bin that holds pixels takes the colour
/// of its centroid, an empty bin keeps its own.
pub fn resolve_bin_colors(
    own: &[Color],
    order: &[usize],
    assignment: &[usize],
    centroids: &[Color],
) -> (colors: Vec<Color>)
    requires
        no_repeats(order@),
        forall|p: int| 0 <= p < order@.len() ==> order@[p] < own@.len(),
        assignment@.len() == order@.len(),
        forall|p: int| 0 <= p < assignment@.len() ==> assignment@[p] < centroids@.len(),
    ensures
        colors@.len() == own@.len(),
        forall|k: int|
            0 <= k < own@.len() ==> #[trigger] colors@[k] == resolved_color(
                own@,
                order@,
                assignment@,
                centroids@,
                k,
            ),
        forall|p: int|
            0 <= p < order@.len() ==> #[trigger] colors@[order@[p] as int]
                == centroids@[assignment@[p] as int],
        forall|k: int|
            0 <= k < own@.len() && (forall|p: int| 0 <= p < order@.len() ==> order@[p] != k)
                ==> #[trigger] colors@[k] == own@[k],
{
    let mut colors: Vec<Color> = Vec::new();
    let n = own.len();
    let mut k: usize = 0;
    while k < n
        invariant
            n == own@.len(),
            k <= n,
            colors@ == own@.take(k as int),
        decreases n - k,
    {
        colors.push(own[k]);
        assert(colors@ =~= own@.take((k + 1) as int));
        k = k + 1;
    }
    assert(colors@ =~= own@);
    let m = order.len();
    let mut p: usize = 0;
    while p < m
        invariant
            m == order@.len(),
            p <= m,
            colors@.len() == own@.len(),
            no_repeats(order@),
            forall|q: int| 0 <= q < order@.len() ==> order@[q] < own@.len(),
            assignment@.len() == order@.len(),
            forall|q: int| 0 <= q < assignment@.len() ==> assignment@[q] < centroids@.len(),
            forall|q: int|
                0 <= q < p ==> colors@[order@[q] as int] == centroids@[assignment@[q] as int],
            forall|t: int|
                0 <= t < own@.len() && (forall|q: int| 0 <= q < p ==> order@[q] != t)
                    ==> colors@[t] == own@[t],
        decreases m - p,
    {
        colors.set(order[p], centroids[assignment[p]]);
        p = p + 1;
    }
    assert forall|k: int| 0 <= k < own@.len() implies #[trigger] colors@[k] == resolved_color(
        own@,
        order@,
        assignment@,
        centroids@,
        k,
    ) by {
        lemma_slot_of(order@, k, order@.len());
        let q = slot_of(order@, k, order@.len());
        if q >= 0 {
            assert(colors@[order@[q] as int] == centroids@[assignment@[q] as int]);
        }
    }
    colors
}

/// The RGBA bytes of the quantised image: bin `rgb[j]` of pixel `j` gives
/// its colour, and every pixel is opaque.
pub open spec fn rendered(rgb: Seq<u16>, colors: Seq<Color>) -> Seq<u8> {
    Seq::new(
        4 * rgb.len(),
        |i: int|
            {
                let c = colors[rgb[i / 4] as int];
                if i % 4 == 0 {
                    c.r
                } else if i % 4 == 1 {
                    c.g
                } else if i % 4 == 2 {
                    c.b
                } else {
                    255u8
                }
            },
    )
}

/// Writes the quantised image: every pixel takes the colour of its bin and
/// an alpha of 255.
pub fn render_quantized(rgb: &[u16], colors: &[Color]) -> (data: Vec<u8>)
    requires
        4 * rgb@.len() <= usize::MAX,
        forall|j: int| 0 <= j < rgb@.len() ==> rgb@[j] < colors@.len(),
    ensures
        data@ == rendered(rgb@, colors@),
{
    let n = rgb.len();
    let mut data: Vec<u8> = Vec::new();
    let mut j: usize = 0;
    while j < n
        invariant
            n == rgb@.len(),
            4 * n <= usize::MAX,
            j <= n,
            forall|q: int| 0 <= q < rgb@.len() ==> rgb@[q] < colors@.len(),
            data@.len() == 4 * j,
            forall|i: int| 0 <= i < 4 * j ==> data@[i] == rendered(rgb@, colors@)[i],
        decreases n - j,
    {
        let c = colors[rgb[j] as usize];
        data.push(c.r);
        data.push(c.g);
        data.push(c.b);
        data.push(255);
        assert forall|i: int| 0 <= i < 4 * (j + 1) implies data@[i] == rendered(rgb@, colors@)[i] by {
            if i >= 4 * j {
                assert(i / 4 == j);
            }
        }
        j = j + 1;
    }
    assert(data@ =~= rendered(rgb@, colors@));
    data
}

/// Pixel `j` of the RGBA bytes `data` has the colour of one of `centroids`.
pub open spec fn in_palette(data: Seq<u8>, centroids: Seq<Color>, j: int) -> bool {
    exists|c: int|
        0 <= c < centroids.len() && data[4 * j] == centroids[c].r && data[4 * j + 1]
            == centroids[c].g && data[4 * j + 2] == centroids[c].b
}

/// The quantised image uses only centroid colours: when the bins are counted
/// from the pixels, ordered by count, and resolved against the centroids,
/// every rendered pixel has the colour of one of the centroids (so at most
/// as many colours as there are centroids) and is opaque.
pub proof fn lemma_quantized_palette(
    rgb: Seq<u16>,
    hist: Seq<usize>,
    order: Seq<usize>,
    own: Seq<Color>,
    assignment: Seq<usize>,
    centroids: Seq<Color>,
    colors: Seq<Color>,
    j: int,
)
    requires
        0 <= j < rgb.len(),
        hist.len() == own.len(),
        forall|i: int| 0 <= i < rgb.len() ==> rgb[i] < own.len(),
        forall|b: int| 0 <= b < hist.len() ==> #[trigger] hist[b] == occurrences(rgb, b, rgb.len()),
        is_count_order(hist, order),
        assignment.len() == order.len(),
        forall|p: int| 0 <= p < assignment.len() ==> assignment[p] < centroids.len(),
        colors.len() == own.len(),
        forall|k: int|
            0 <= k < own.len() ==> #[trigger] colors[k] == resolved_color(
                own,
                order,
                assignment,
                centroids,
                k,
            ),
    ensures
        in_palette(rendered(rgb, colors), centroids, j),
        rendered(rgb, colors)[4 * j + 3] == 255,
{
    let k = rgb[j] as int;
    lemma_occurrences_positive(rgb, j, rgb.len());
    assert(hist[k] > 0);
    assert(order.contains(k as usize));
    let p = choose|p: int| 0 <= p < order.len() && order[p] == k;
    let c = assignment[p] as int;
    assert(no_repeats(order)) by {
        assert forall|a: int, b: int| 0 <= a < b < order.len() implies order[a] != order[b] by {
            assert(goes_before(hist, order[a] as int, order[b] as int));
        }
    }
    lemma_slot_of(order, k, order.len());
    assert(colors[k] == resolved_color(own, order, assignment, centroids, k));
    assert(colors[k] == centroids[c]);
    assert((4 * j) / 4 == j);
    assert((4 * j + 1) / 4 == j);
    assert((4 * j + 2) / 4 == j);
    assert((4 * j + 3) / 4 == j);
}


/// The quantised image: every bin takes the colour of the centroid that its
/// entry in `order` was assigned to (an empty bin keeps its own colour), and
/// every pixel is written in the colour of its bin, opaque. `hist` counts
/// the pixels of every bin of `rgb` and `order` lists its non-empty bins by
/// count; so every pixel ends in a centroid colour.
pub fn quantized_image(
    rgb: &[u16],
    hist: &[usize],
    order: &[usize],
    own: &[Color],
    assignment: &[usize],
    centroids: &[Color],
) -> (data: Vec<u8>)
    requires
        4 * rgb@.len() <= usize::MAX,
        hist@.len() == own@.len(),
        forall|i: int| 0 <= i < rgb@.len() ==> rgb@[i] < own@.len(),
        forall|b: int| 0 <= b < hist@.len() ==> #[trigger] hist@[b] == occurrences(rgb@, b, rgb@.len()),
        is_count_order(hist@, order@),
        assignment@.len() == order@.len(),
        forall|p: int| 0 <= p < assignment@.len() ==> assignment@[p] < centroids@.len(),
    ensures
        data@ == rendered(
            rgb@,
            Seq::new(own@.len(), |k: int| resolved_color(own@, order@, assignment@, centroids@, k)),
        ),
        forall|j: int| 0 <= j < rgb@.len() ==> #[trigger] in_palette(data@, centroids@, j),
        forall|j: int| 0 <= j < rgb@.len() ==> #[trigger] data@[4 * j + 3] == 255,
{
    proof {
        assert forall|a: int, b: int| 0 <= a < b < order@.len() implies order@[a] != order@[b] by {
            assert(goes_before(hist@, order@[a] as int, order@[b] as int));
        }
    }
    let colors = resolve_bin_colors(own, order, assignment, centroids);
    let data = render_quantized(rgb, colors.as_slice());
    proof {
        assert(colors@ =~= Seq::new(
            own@.len(),
            |k: int| resolved_color(own@, order@, assignment@, centroids@, k),
        ));
        assert forall|j: int| 0 <= j < rgb@.len() implies #[trigger] in_palette(
            data@,
            centroids@,
            j,
        ) by {
            lemma_quantized_palette(rgb@, hist@, order@, own@, assignment@, centroids@, colors@, j);
        }
        assert forall|j: int| 0 <= j < rgb@.len() implies #[trigger] data@[4 * j + 3] == 255 by {
            lemma_quantized_palette(rgb@, hist@, order@, own@, assignment@, centroids@, colors@, j);
        }
    }
    data
}

} // verus!
