use vstd::prelude::*;

verus! {

/// An RGBA image as its width, its height and its raw bytes, four per
/// pixel, row by row.
pub struct PixelBuffer {
    pub width: u32,
    pub height: u32,
    pub data: Vec<u8>,
}

/// Number of whole pixels in a buffer of RGBA bytes.
pub open spec fn pixel_len(data: Seq<u8>) -> nat {
    data.len() / 4
}

/// Pixel `k` is not fully transparent.
pub open spec fn opaque(data: Seq<u8>, k: int) -> bool {
    data[4 * k + 3] > 0
}

/// `levels` lists the gray levels of the non-transparent pixels, each once,
/// in increasing order.
pub open spec fn is_gray_levels(levels: Seq<i32>, data: Seq<u8>, gray: Seq<i32>) -> bool {
    &&& forall|i: int, j: int| 0 <= i < j < levels.len() ==> levels[i] < levels[j]
    &&& forall|i: int| 0 <= i < levels.len() ==> has_gray(data, gray, #[trigger] levels[i])
    &&& forall|k: int| 0 <= k < pixel_len(data) && opaque(data, k) ==> levels.contains(gray[k])
}

/// Some non-transparent pixel has gray value `g`.
pub open spec fn has_gray(data: Seq<u8>, gray: Seq<i32>, g: i32) -> bool {
    exists|k: int| 0 <= k < pixel_len(data) && opaque(data, k) && gray[k] == g
}

/// The sorted gray levels of the non-transparent pixels of `data`, whose
/// gray values are `gray`.
pub open spec fn gray_levels(data: Seq<u8>, gray: Seq<i32>) -> Seq<i32> {
    choose|levels: Seq<i32>| is_gray_levels(levels, data, gray)
}

/// The first of the first `n` pixels that is not transparent and has gray
/// value `g`, or -1 when there is none.
pub open spec fn first_with_gray(data: Seq<u8>, gray: Seq<i32>, g: i32, n: nat) -> int
    decreases n,
{
    if n == 0 {
        -1
    } else {
        let r = first_with_gray(data, gray, g, (n - 1) as nat);
        if r >= 0 {
            r
        } else if opaque(data, n - 1) && gray[n - 1] == g {
            n - 1
        } else {
            -1
        }
    }
}

/// The position of `g` among the first `n` entries of `levels`, or -1.
pub open spec fn level_index(levels: Seq<i32>, g: i32, n: nat) -> int
    decreases n,
{
    if n == 0 {
        -1
    } else if levels[n - 1] == g {
        n - 1
    } else {
        level_index(levels, g, (n - 1) as nat)
    }
}

/// The source pixel whose colour target pixel `k` takes: the target gray
/// levels and the source gray levels are matched by rank (the darkest with
/// the darkest, and so on, all further target levels with the brightest
/// source level), and a source level is represented by its first pixel.
pub open spec fn hue_source(
    src: Seq<u8>,
    src_gray: Seq<i32>,
    target: Seq<u8>,
    target_gray: Seq<i32>,
    k: int,
) -> int {
    let s = gray_levels(src, src_gray);
    let t = gray_levels(target, target_gray);
    let r = level_index(t, target_gray[k], t.len());
    let si = if r < s.len() {
        r
    } else {
        s.len() - 1
    };
    first_with_gray(src, src_gray, s[si], pixel_len(src))
}

proof fn lemma_first_with_gray(data: Seq<u8>, gray: Seq<i32>, g: i32, n: nat)
    ensures
        first_with_gray(data, gray, g, n) == -1 <==> (forall|q: int|
            0 <= q < n ==> !(opaque(data, q) && gray[q] == g)),
        first_with_gray(data, gray, g, n) >= 0 ==> {
            let r = first_with_gray(data, gray, g, n);
            &&& r < n
            &&& opaque(data, r)
            &&& gray[r] == g
        },
    decreases n,
{
    if n > 0 {
        lemma_first_with_gray(data, gray, g, (n - 1) as nat);
    }
}

proof fn lemma_first_with_gray_stable(data: Seq<u8>, gray: Seq<i32>, g: i32, n: nat, m: nat)
    requires
        n <= m,
        first_with_gray(data, gray, g, n) >= 0,
    ensures
        first_with_gray(data, gray, g, m) == first_with_gray(data, gray, g, n),
    decreases m,
{
    if m > n {
        lemma_first_with_gray_stable(data, gray, g, n, (m - 1) as nat);
    }
}

proof fn lemma_level_index(levels: Seq<i32>, g: i32, n: nat)
    requires
        n <= levels.len(),
        forall|i: int, j: int| 0 <= i < j < levels.len() ==> levels[i] < levels[j],
    ensures
        level_index(levels, g, n) == -1 <==> (forall|q: int| 0 <= q < n ==> levels[q] != g),
        forall|q: int| 0 <= q < n && levels[q] == g ==> level_index(levels, g, n) == q,
    decreases n,
{
    if n > 0 {
        lemma_level_index(levels, g, (n - 1) as nat);
    }
}

/// Two strictly increasing sequences that hold the same values are equal.
proof fn lemma_sorted_unique(a: Seq<i32>, b: Seq<i32>)
    requires
        forall|i: int, j: int| 0 <= i < j < a.len() ==> a[i] < a[j],
        forall|i: int, j: int| 0 <= i < j < b.len() ==> b[i] < b[j],
        forall|x: i32| a.contains(x) <==> b.contains(x),
    ensures
        a == b,
    decreases a.len(),
{
    if a.len() == 0 {
        if b.len() > 0 {
            assert(b.contains(b[0]));
        }
    } else if b.len() == 0 {
        assert(a.contains(a[0]));
    } else {
        assert(a.contains(a[0]));
        assert(b.contains(b[0]));
        let ia = choose|i: int| 0 <= i < a.len() && a[i] == b[0];
        let ib = choose|i: int| 0 <= i < b.len() && b[i] == a[0];
        assert(a[0] <= a[ia]);
        assert(b[0] <= b[ib]);
        assert(a[0] == b[0]);
        let a1 = a.drop_first();
        let b1 = b.drop_first();
        assert forall|x: i32| a1.contains(x) implies b1.contains(x) by {
            let i = choose|i: int| 0 <= i < a1.len() && a1[i] == x;
            assert(a.contains(x));
            assert(a[0] < a[i + 1]);
            let j = choose|j: int| 0 <= j < b.len() && b[j] == x;
            assert(j != 0);
            assert(b1[j - 1] == x);
        }
        assert forall|x: i32| b1.contains(x) implies a1.contains(x) by {
            let i = choose|i: int| 0 <= i < b1.len() && b1[i] == x;
            assert(b.contains(x));
            assert(b[0] < b[i + 1]);
            let j = choose|j: int| 0 <= j < a.len() && a[j] == x;
            assert(j != 0);
            assert(a1[j - 1] == x);
        }
        lemma_sorted_unique(a1, b1);
        assert(a =~= b) by {
            assert forall|i: int| 0 <= i < a.len() implies a[i] == b[i] by {
                if i > 0 {
                    assert(a1[i - 1] == b1[i - 1]);
                }
            }
        }
    }
}

/// A list of gray levels is the one `gray_levels` names.
pub proof fn lemma_gray_levels_unique(levels: Seq<i32>, data: Seq<u8>, gray: Seq<i32>)
    requires
        is_gray_levels(levels, data, gray),
    ensures
        gray_levels(data, gray) == levels,
{
    let other = gray_levels(data, gray);
    assert(is_gray_levels(other, data, gray));
    assert forall|x: i32| levels.contains(x) implies other.contains(x) by {
        let i = choose|i: int| 0 <= i < levels.len() && levels[i] == x;
        assert(has_gray(data, gray, levels[i]));
        let k = choose|k: int| 0 <= k < pixel_len(data) && opaque(data, k) && gray[k] == levels[i];
    }
    assert forall|x: i32| other.contains(x) implies levels.contains(x) by {
        let i = choose|i: int| 0 <= i < other.len() && other[i] == x;
        assert(has_gray(data, gray, other[i]));
        let k = choose|k: int| 0 <= k < pixel_len(data) && opaque(data, k) && gray[k] == other[i];
    }
    lemma_sorted_unique(levels, other);
}

proof fn lemma_levels_witnessed(levels: Seq<i32>, firsts: Seq<usize>, data: Seq<u8>, gray: Seq<i32>)
    requires
        levels.len() == firsts.len(),
        forall|i: int|
            0 <= i < firsts.len() ==> firsts[i] as int == first_with_gray(
                data,
                gray,
                levels[i],
                pixel_len(data),
            ),
    ensures
        forall|i: int| 0 <= i < levels.len() ==> has_gray(data, gray, #[trigger] levels[i]),
{
    assert forall|i: int| 0 <= i < levels.len() implies has_gray(data, gray, #[trigger] levels[i]) by {
        assert(firsts[i] as int == first_with_gray(data, gray, levels[i], pixel_len(data)));
        lemma_first_with_gray(data, gray, levels[i], pixel_len(data));
        let r = first_with_gray(data, gray, levels[i], pixel_len(data));
        assert(gray[r] == levels[i]);
    }
}

/// The sorted gray levels of the non-transparent pixels, with the first
/// pixel that has each level.
pub fn gray_index(data: &[u8], gray: &[i32]) -> (res: (Vec<i32>, Vec<usize>))
    requires
        gray@.len() == pixel_len(data@),
    ensures
        is_gray_levels(res.0@, data@, gray@),
        res.1@.len() == res.0@.len(),
        forall|i: int|
            0 <= i < res.1@.len() ==> res.1@[i] as int == first_with_gray(
                data@,
                gray@,
                res.0@[i],
                pixel_len(data@),
            ),
{
    let len = data.len();
    let n = len / 4;
    let mut levels: Vec<i32> = Vec::new();
    let mut firsts: Vec<usize> = Vec::new();
    let mut k: usize = 0;
    while k < n
        invariant
            len == data@.len(),
            n == pixel_len(data@),
            gray@.len() == n,
            k <= n,
            levels@.len() == firsts@.len(),
            forall|i: int, j: int| 0 <= i < j < levels@.len() ==> levels@[i] < levels@[j],
            forall|i: int|
                0 <= i < firsts@.len() ==> firsts@[i] as int == first_with_gray(
                    data@,
                    gray@,
                    levels@[i],
                    k as nat,
                ) && firsts@[i] < k,
            forall|q: int| 0 <= q < k && opaque(data@, q) ==> levels@.contains(gray@[q]),
        decreases n - k,
    {
        let ghost old_levels = levels@;
        let ghost old_firsts = firsts@;
        let ghost mut at: int = -1;
        proof {
            assert forall|i: int| 0 <= i < old_firsts.len() implies first_with_gray(
                data@,
                gray@,
                old_levels[i],
                (k + 1) as nat,
            ) == old_firsts[i] as int by {
                assert(old_firsts[i] as int == first_with_gray(data@, gray@, old_levels[i], k as nat));
                lemma_first_with_gray(data@, gray@, old_levels[i], k as nat);
                lemma_first_with_gray_stable(data@, gray@, old_levels[i], k as nat, (k + 1) as nat);
            }
        }
        if data[4 * k + 3] > 0 {
            let g = gray[k];
            let mut p: usize = 0;
            while p < levels.len() && levels[p] < g
                invariant
                    p <= levels@.len(),
                    forall|q: int| 0 <= q < p ==> levels@[q] < g,
                decreases levels@.len() - p,
            {
                p = p + 1;
            }
            if p < levels.len() && levels[p] == g {
            } else {
                proof {
                    old_levels.insert_ensures(p as int, g);
                    old_firsts.insert_ensures(p as int, k);
                    assert forall|q: int| 0 <= q < k implies !(opaque(data@, q) && gray@[q] == g) by {
                        if opaque(data@, q) && gray@[q] == g {
                            let i = choose|i: int| 0 <= i < old_levels.len() && old_levels[i] == g;
                            if i < p {
                                assert(old_levels[i] < g);
                            } else if i > p {
                                assert(old_levels[p as int] < old_levels[i]);
                            }
                        }
                    }
                    lemma_first_with_gray(data@, gray@, g, k as nat);
                    if p < old_levels.len() {
                        assert forall|q: int| p <= q < old_levels.len() implies g < old_levels[q] by {
                            if q > p {
                                assert(old_levels[p as int] < old_levels[q]);
                            }
                        }
                    }
                }
                levels.insert(p, g);
                firsts.insert(p, k);
                proof {
                    at = p as int;
                }
                assert(firsts@[p as int] as int == first_with_gray(data@, gray@, g, (k + 1) as nat));
            }
        }
        assert forall|q: int| 0 <= q < k + 1 && opaque(data@, q) implies levels@.contains(
            gray@[q],
        ) by {
            if q < k {
                let i = choose|i: int| 0 <= i < old_levels.len() && old_levels[i] == gray@[q];
                if at >= 0 {
                    let p = at;
                    if i < p {
                        assert(levels@[i] == gray@[q]);
                    } else {
                        assert(levels@[i + 1] == gray@[q]);
                    }
                } else {
                    assert(levels@[i] == gray@[q]);
                }
            }
        }
        k = k + 1;
    }
    proof {
        lemma_levels_witnessed(levels@, firsts@, data@, gray@);
    }
    (levels, firsts)
}

/// Some pixel of `data` is not transparent.
pub open spec fn has_opaque(data: Seq<u8>) -> bool {
    exists|k: int| 0 <= k < pixel_len(data) && opaque(data, k)
}

/// The bytes of the target after its colours were taken from the source:
/// when the source has a non-transparent pixel, the red, green and blue
/// bytes of every non-transparent target pixel are those of its
/// `hue_source`; all other bytes, alpha among them, stay.
pub open spec fn transferred(
    src: Seq<u8>,
    src_gray: Seq<i32>,
    target: Seq<u8>,
    target_gray: Seq<i32>,
) -> Seq<u8> {
    Seq::new(
        target.len(),
        |i: int|
            if has_opaque(src) && i % 4 != 3 && opaque(target, i / 4) {
                src[4 * hue_source(src, src_gray, target, target_gray, i / 4) + i % 4]
            } else {
                target[i]
            },
    )
}

/// Writing to the target stays inside its `width` x `height` pixels: when
/// any recolouring happens, no non-transparent target pixel lies beyond.
pub open spec fn recolor_in_bounds(src: Seq<u8>, target: Seq<u8>, width: u32, height: u32) -> bool {
    has_opaque(src) ==> forall|k: int|
        0 <= k < pixel_len(target) && opaque(target, k) ==> k < width * height
}

proof fn lemma_has_opaque_levels(levels: Seq<i32>, data: Seq<u8>, gray: Seq<i32>)
    requires
        is_gray_levels(levels, data, gray),
    ensures
        has_opaque(data) <==> levels.len() > 0,
{
    if has_opaque(data) {
        let k = choose|k: int| 0 <= k < pixel_len(data) && opaque(data, k);
        assert(levels.contains(gray[k]));
    }
    if levels.len() > 0 {
        assert(has_gray(data, gray, levels[0]));
    }
}

/// Gives the target head the colours of the source head, gray level by
/// gray level: the gray levels of the non-transparent pixels of both images
/// are sorted, the i-th target level takes the colour of the first source
/// pixel of the i-th source level (or of the brightest source level when the
/// source has fewer levels). `src_gray` and `target_gray` hold the gray
/// value of every pixel.
pub fn copy_hue(src: &PixelBuffer, src_gray: &[i32], target: &mut PixelBuffer, target_gray: &[i32])
    requires
        src.width > 0,
        old(target).width > 0,
        4 * src.width <= usize::MAX,
        4 * old(target).width <= usize::MAX,
        src.data@.len() % 4 == 0,
        old(target).data@.len() % 4 == 0,
        src_gray@.len() == pixel_len(src.data@),
        target_gray@.len() == pixel_len(old(target).data@),
        recolor_in_bounds(src.data@, old(target).data@, old(target).width, old(target).height),
    ensures
        final(target).width == old(target).width,
        final(target).height == old(target).height,
        final(target).data@ == transferred(
            src.data@,
            src_gray@,
            old(target).data@,
            target_gray@,
        ),
{
    let (slevels, sfirst) = gray_index(src.data.as_slice(), src_gray);
    let (tlevels, _tfirst) = gray_index(target.data.as_slice(), target_gray);
    let ghost s0 = src.data@;
    let ghost t0 = target.data@;
    proof {
        lemma_gray_levels_unique(slevels@, s0, src_gray@);
        lemma_gray_levels_unique(tlevels@, t0, target_gray@);
        lemma_has_opaque_levels(slevels@, s0, src_gray@);
        lemma_has_opaque_levels(tlevels@, t0, target_gray@);
    }
    if slevels.len() > 0 && tlevels.len() > 0 {
        let len = target.data.len();
        let src_len = src.data.len();
        let n = len / 4;
        let slen = slevels.len();
        let tlen = tlevels.len();
        let mut k: usize = 0;
        while k < n
            invariant
                len == t0.len(),
                src_len == s0.len(),
                target.width == old(target).width,
                target.height == old(target).height,
                len % 4 == 0,
                n == pixel_len(t0),
                k <= n,
                slen == slevels@.len(),
                slen > 0,
                tlen == tlevels@.len(),
                slevels@ == gray_levels(s0, src_gray@),
                tlevels@ == gray_levels(t0, target_gray@),
                is_gray_levels(slevels@, s0, src_gray@),
                is_gray_levels(tlevels@, t0, target_gray@),
                sfirst@.len() == slen,
                forall|i: int|
                    0 <= i < sfirst@.len() ==> sfirst@[i] as int == first_with_gray(
                        s0,
                        src_gray@,
                        slevels@[i],
                        pixel_len(s0),
                    ),
                s0 == src.data@,
                has_opaque(s0),
                target_gray@.len() == n,
                target.data@.len() == len,
                forall|i: int|
                    0 <= i < 4 * k ==> target.data@[i] == transferred(
                        s0,
                        src_gray@,
                        t0,
                        target_gray@,
                    )[i],
                forall|i: int| 4 * k <= i < len ==> target.data@[i] == t0[i],
            decreases n - k,
        {
            let i = 4 * k;
            if target.data[i + 3] > 0 {
                let g = target_gray[k];
                proof {
                    assert(opaque(t0, k as int));
                    assert(tlevels@.contains(g));
                    lemma_level_index(tlevels@, g, tlen as nat);
                }
                let mut r: usize = 0;
                while tlevels[r] != g
                    invariant
                        r < tlen,
                        tlen == tlevels@.len(),
                        forall|q: int| 0 <= q < r ==> tlevels@[q] != g,
                        tlevels@.contains(g),
                    decreases tlen - r,
                {
                    r = r + 1;
                    proof {
                        if r == tlen {
                            let q = choose|q: int| 0 <= q < tlevels@.len() && tlevels@[q] == g;
                            assert(tlevels@[q] != g);
                        }
                    }
                }
                let si = if r < slen {
                    r
                } else {
                    slen - 1
                };
                let fi = sfirst[si];
                proof {
                    assert(r as int == level_index(tlevels@, g, tlen as nat));
                    assert(has_gray(s0, src_gray@, slevels@[si as int]));
                    lemma_first_with_gray(s0, src_gray@, slevels@[si as int], pixel_len(s0));
                    assert(fi as int == hue_source(s0, src_gray@, t0, target_gray@, k as int));
                    assert(4 * fi + 2 < s0.len());
                }
                let red = src.data[4 * fi];
                let green = src.data[4 * fi + 1];
                let blue = src.data[4 * fi + 2];
                target.data.set(i, red);
                target.data.set(i + 1, green);
                target.data.set(i + 2, blue);
            }
            assert forall|j: int| 0 <= j < 4 * (k + 1) implies target.data@[j] == transferred(
                s0,
                src_gray@,
                t0,
                target_gray@,
            )[j] by {
                if j >= 4 * k {
                    assert(j / 4 == k);
                }
            }
            k = k + 1;
        }
        assert(target.data@ =~= transferred(s0, src_gray@, t0, target_gray@));
    } else {
        assert forall|i: int| 0 <= i < t0.len() implies t0[i] == transferred(
            s0,
            src_gray@,
            t0,
            target_gray@,
        )[i] by {
            if has_opaque(s0) && i % 4 != 3 {
                assert(!opaque(t0, i / 4)) by {
                    if opaque(t0, i / 4) {
                        assert(i / 4 < pixel_len(t0));
                        assert(tlevels@.contains(target_gray@[i / 4]));
                    }
                }
            }
        }
        assert(target.data@ =~= transferred(s0, src_gray@, t0, target_gray@));
    }
}

/// The source pixel that a non-transparent target pixel takes its colour
/// from is a non-transparent source pixel whose gray level is the rank-
/// matched source level.
proof fn lemma_hue_source_facts(
    src: Seq<u8>,
    src_gray: Seq<i32>,
    target: Seq<u8>,
    target_gray: Seq<i32>,
    k: int,
)
    requires
        has_opaque(src),
        0 <= k < pixel_len(target),
        opaque(target, k),
    ensures
        ({
            let s = gray_levels(src, src_gray);
            let t = gray_levels(target, target_gray);
            let r = level_index(t, target_gray[k], t.len());
            let si = if r < s.len() { r } else { s.len() - 1 };
            let h = hue_source(src, src_gray, target, target_gray, k);
            &&& 0 <= r < t.len()
            &&& t[r] == target_gray[k]
            &&& 0 <= si < s.len()
            &&& 0 <= h < pixel_len(src)
            &&& opaque(src, h)
            &&& src_gray[h] == s[si]
        }),
{
    let s = gray_levels(src, src_gray);
    let t = gray_levels(target, target_gray);
    lemma_gray_levels_spec(src, src_gray);
    lemma_gray_levels_spec(target, target_gray);
    lemma_has_opaque_levels(s, src, src_gray);
    assert(t.contains(target_gray[k]));
    lemma_level_index(t, target_gray[k], t.len());
    let r = level_index(t, target_gray[k], t.len());
    let si = if r < s.len() { r } else { s.len() - 1 };
    assert(has_gray(src, src_gray, s[si]));
    lemma_first_with_gray(src, src_gray, s[si], pixel_len(src));
}

/// `gray_levels` is a list of gray levels.
pub proof fn lemma_gray_levels_spec(data: Seq<u8>, gray: Seq<i32>)
    ensures
        is_gray_levels(gray_levels(data, gray), data, gray),
{
    lemma_gray_levels_exist(data, gray);
}

/// Every buffer has its list of gray levels.
proof fn lemma_gray_levels_exist(data: Seq<u8>, gray: Seq<i32>)
    ensures
        exists|l: Seq<i32>| is_gray_levels(l, data, gray),
{
    let l = gray_levels_prefix(data, gray, pixel_len(data));
    lemma_gray_levels_prefix(data, gray, pixel_len(data));
}

/// The sorted gray levels of the first `n` pixels.
spec fn gray_levels_prefix(data: Seq<u8>, gray: Seq<i32>, n: nat) -> Seq<i32>
    decreases n,
{
    if n == 0 {
        Seq::empty()
    } else {
        let l = gray_levels_prefix(data, gray, (n - 1) as nat);
        let g = gray[n - 1];
        if opaque(data, n - 1) && !l.contains(g) {
            let p = lower_count(l, g, l.len());
            l.insert(p, g)
        } else {
            l
        }
    }
}

/// Number of the first `m` entries of `l` below `g`.
spec fn lower_count(l: Seq<i32>, g: i32, m: nat) -> int
    decreases m,
{
    if m == 0 {
        0
    } else {
        lower_count(l, g, (m - 1) as nat) + if l[m - 1] < g {
            1int
        } else {
            0int
        }
    }
}

proof fn lemma_lower_count(l: Seq<i32>, g: i32, m: nat)
    requires
        m <= l.len(),
        forall|i: int, j: int| 0 <= i < j < l.len() ==> l[i] < l[j],
    ensures
        0 <= lower_count(l, g, m) <= m,
        forall|q: int| 0 <= q < lower_count(l, g, m) ==> l[q] < g,
        forall|q: int| lower_count(l, g, m) <= q < m ==> l[q] >= g,
    decreases m,
{
    if m > 0 {
        lemma_lower_count(l, g, (m - 1) as nat);
        if l[m - 1] < g {
            assert forall|q: int| 0 <= q < m - 1 implies l[q] < g by {
                assert(l[q] < l[m - 1]);
            }
        }
    }
}

proof fn lemma_gray_levels_prefix(data: Seq<u8>, gray: Seq<i32>, n: nat)
    requires
        n <= pixel_len(data),
    ensures
        ({
            let l = gray_levels_prefix(data, gray, n);
            &&& forall|i: int, j: int| 0 <= i < j < l.len() ==> l[i] < l[j]
            &&& forall|i: int| 0 <= i < l.len() ==> has_gray(data, gray, #[trigger] l[i])
            &&& forall|k: int| 0 <= k < n && opaque(data, k) ==> l.contains(gray[k])
        }),
        n == pixel_len(data) ==> is_gray_levels(gray_levels_prefix(data, gray, n), data, gray),
    decreases n,
{
    if n > 0 {
        lemma_gray_levels_prefix(data, gray, (n - 1) as nat);
        let l = gray_levels_prefix(data, gray, (n - 1) as nat);
        let g = gray[n - 1];
        if opaque(data, n - 1) && !l.contains(g) {
            let p = lower_count(l, g, l.len());
            lemma_lower_count(l, g, l.len());
            l.insert_ensures(p, g);
            let l2 = l.insert(p, g);
            assert forall|i: int| 0 <= i < l2.len() implies has_gray(data, gray, #[trigger] l2[i]) by {
                if i < p {
                    assert(l2[i] == l[i]);
                } else if i > p {
                    assert(l2[i] == l[i - 1]);
                } else {
                    assert(gray[n - 1] == g);
                }
            }
            assert forall|i: int, j: int| 0 <= i < j < l2.len() implies l2[i] < l2[j] by {
                if j < p {
                } else if i > p {
                    assert(l2[i] == l[i - 1]);
                    assert(l2[j] == l[j - 1]);
                } else if i == p {
                    assert(l2[j] == l[j - 1]);
                    assert(l[j - 1] >= g);
                    assert(l[j - 1] != g);
                } else if j == p {
                } else {
                    assert(l2[j] == l[j - 1]);
                    assert(l[i] < g);
                    assert(l[j - 1] >= g);
                }
            }
            assert forall|k: int| 0 <= k < n && opaque(data, k) implies l2.contains(gray[k]) by {
                if k < n - 1 {
                    let i = choose|i: int| 0 <= i < l.len() && l[i] == gray[k];
                    if i < p {
                        assert(l2[i] == gray[k]);
                    } else {
                        assert(l2[i + 1] == gray[k]);
                    }
                } else {
                    assert(l2[p] == gray[k]);
                }
            }
        }
    }
}

/// Target pixels of one gray level end with one colour.
pub proof fn lemma_copy_hue_same_level_same_color(
    src: Seq<u8>,
    src_gray: Seq<i32>,
    target: Seq<u8>,
    target_gray: Seq<i32>,
    k1: int,
    k2: int,
    c: int,
)
    requires
        has_opaque(src),
        0 <= k1 < pixel_len(target),
        0 <= k2 < pixel_len(target),
        0 <= c < 3,
        opaque(target, k1),
        opaque(target, k2),
        target_gray[k1] == target_gray[k2],
    ensures
        transferred(src, src_gray, target, target_gray)[4 * k1 + c] == transferred(
            src,
            src_gray,
            target,
            target_gray,
        )[4 * k2 + c],
{
    assert((4 * k1 + c) / 4 == k1);
    assert((4 * k2 + c) / 4 == k2);
    assert((4 * k1 + c) % 4 == c);
    assert((4 * k2 + c) % 4 == c);
}

/// The transfer keeps the order of brightness: a darker target gray level
/// takes its colour from a source gray level no brighter than the one a
/// lighter target level takes its colour from.
pub proof fn lemma_copy_hue_keeps_order(
    src: Seq<u8>,
    src_gray: Seq<i32>,
    target: Seq<u8>,
    target_gray: Seq<i32>,
    k1: int,
    k2: int,
)
    requires
        has_opaque(src),
        0 <= k1 < pixel_len(target),
        0 <= k2 < pixel_len(target),
        opaque(target, k1),
        opaque(target, k2),
        target_gray[k1] < target_gray[k2],
    ensures
        src_gray[hue_source(src, src_gray, target, target_gray, k1)] <= src_gray[hue_source(
            src,
            src_gray,
            target,
            target_gray,
            k2,
        )],
{
    lemma_hue_source_facts(src, src_gray, target, target_gray, k1);
    lemma_hue_source_facts(src, src_gray, target, target_gray, k2);
    let s = gray_levels(src, src_gray);
    let t = gray_levels(target, target_gray);
    let r1 = level_index(t, target_gray[k1], t.len());
    let r2 = level_index(t, target_gray[k2], t.len());
    lemma_gray_levels_spec(src, src_gray);
    lemma_gray_levels_spec(target, target_gray);
    if r1 >= r2 {
        if r1 > r2 {
            assert(t[r2] < t[r1]);
        }
    }
    let si1 = if r1 < s.len() { r1 } else { s.len() - 1 };
    let si2 = if r2 < s.len() { r2 } else { s.len() - 1 };
    if si1 < si2 {
        assert(s[si1] < s[si2]);
    }
}

/// When the source has at least as many gray levels as the target, the
/// transfer keeps gray levels apart: a darker target gray level takes its
/// colour from a strictly darker source gray level than a lighter one.
pub proof fn lemma_copy_hue_keeps_levels_apart(
    src: Seq<u8>,
    src_gray: Seq<i32>,
    target: Seq<u8>,
    target_gray: Seq<i32>,
    k1: int,
    k2: int,
)
    requires
        has_opaque(src),
        gray_levels(target, target_gray).len() <= gray_levels(src, src_gray).len(),
        0 <= k1 < pixel_len(target),
        0 <= k2 < pixel_len(target),
        opaque(target, k1),
        opaque(target, k2),
        target_gray[k1] < target_gray[k2],
    ensures
        src_gray[hue_source(src, src_gray, target, target_gray, k1)] < src_gray[hue_source(
            src,
            src_gray,
            target,
            target_gray,
            k2,
        )],
{
    lemma_hue_source_facts(src, src_gray, target, target_gray, k1);
    lemma_hue_source_facts(src, src_gray, target, target_gray, k2);
    let s = gray_levels(src, src_gray);
    let t = gray_levels(target, target_gray);
    let r1 = level_index(t, target_gray[k1], t.len());
    let r2 = level_index(t, target_gray[k2], t.len());
    lemma_gray_levels_spec(src, src_gray);
    lemma_gray_levels_spec(target, target_gray);
    if r1 >= r2 {
        if r1 > r2 {
            assert(t[r2] < t[r1]);
        }
    }
    assert(r1 < r2);
    assert(s[r1] < s[r2]);
}

/// The transfer only paints source colours and only where the target is
/// visible: a non-transparent target pixel ends with the red, green and
/// blue of some non-transparent source pixel; every opacity byte and every
/// transparent target pixel stays as it was.
pub proof fn lemma_copy_hue_paints_source_colours(
    src: Seq<u8>,
    src_gray: Seq<i32>,
    target: Seq<u8>,
    target_gray: Seq<i32>,
    k: int,
)
    requires
        has_opaque(src),
        0 <= k < pixel_len(target),
        src.len() % 4 == 0,
    ensures
        opaque(target, k) ==> exists|h: int|
            0 <= h < pixel_len(src) && opaque(src, h) && #[trigger] src[4 * h] == transferred(
                src,
                src_gray,
                target,
                target_gray,
            )[4 * k] && src[4 * h + 1] == transferred(src, src_gray, target, target_gray)[4 * k
                + 1] && src[4 * h + 2] == transferred(src, src_gray, target, target_gray)[4 * k
                + 2],
        !opaque(target, k) ==> forall|c: int|
            0 <= c < 4 ==> #[trigger] transferred(src, src_gray, target, target_gray)[4 * k + c]
                == target[4 * k + c],
        transferred(src, src_gray, target, target_gray)[4 * k + 3] == target[4 * k + 3],
{
    assert((4 * k + 3) / 4 == k && (4 * k + 3) % 4 == 3);
    assert forall|c: int|
        !opaque(target, k) && 0 <= c < 4 implies #[trigger] transferred(
        src,
        src_gray,
        target,
        target_gray,
    )[4 * k + c] == target[4 * k + c] by {
        assert((4 * k + c) / 4 == k);
    }
    if opaque(target, k) {
        lemma_hue_source_facts(src, src_gray, target, target_gray, k);
        let h = hue_source(src, src_gray, target, target_gray, k);
        assert((4 * k) / 4 == k && (4 * k) % 4 == 0);
        assert((4 * k + 1) / 4 == k && (4 * k + 1) % 4 == 1);
        assert((4 * k + 2) / 4 == k && (4 * k + 2) % 4 == 2);
        assert(src[4 * h] == transferred(src, src_gray, target, target_gray)[4 * k]);
    }
}

} // verus!
