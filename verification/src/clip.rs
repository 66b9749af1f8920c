use vstd::prelude::*;
use crate::imgtool::PixelBuffer;
use vstd::arithmetic::div_mod::lemma_fundamental_div_mod_converse;

verus! {

/// The bytes of an image whose first `rows` rows of `width` pixels were
/// made fully transparent black.
pub open spec fn cleared(data: Seq<u8>, width: u32, rows: u32) -> Seq<u8> {
    Seq::new(data.len(), |i: int| if i / 4 < rows * width { 0u8 } else { data[i] })
}

/// The bytes of an image whose rows `first_row .. first_row + limits.len()`
/// had their opacity capped: in row `first_row + r` no pixel is more opaque
/// than `limits[r]`; colours and all other rows stay.
pub open spec fn faded(data: Seq<u8>, width: u32, first_row: u32, limits: Seq<u8>) -> Seq<u8> {
    Seq::new(
        data.len(),
        |i: int|
            {
                let y = (i / 4) / (width as int);
                if width > 0 && i % 4 == 3 && first_row <= y < first_row + limits.len() {
                    if data[i] < limits[y - first_row] {
                        data[i]
                    } else {
                        limits[y - first_row]
                    }
                } else {
                    data[i]
                }
            },
    )
}

/// Clearing blanks every byte of the first `rows` rows, colour and opacity
/// alike, and leaves every later byte as it was.
pub proof fn lemma_clear_blanks_whole_rows(data: Seq<u8>, width: u32, rows: u32)
    ensures
        cleared(data, width, rows).len() == data.len(),
        forall|y: int, x: int, c: int|
            0 <= y < rows && 0 <= x < width && 0 <= c < 4 && 4 * (y * width + x) + c < data.len()
                ==> #[trigger] cleared(data, width, rows)[4 * (y * width + x) + c] == 0,
        forall|i: int|
            4 * (rows * width) <= i < data.len() ==> #[trigger] cleared(data, width, rows)[i]
                == data[i],
{
    assert forall|y: int, x: int, c: int|
        0 <= y < rows && 0 <= x < width && 0 <= c < 4 && 4 * (y * width + x) + c
            < data.len() implies #[trigger] cleared(data, width, rows)[4 * (y * width + x) + c]
        == 0 by {
        let p = y * width + x;
        lemma_fundamental_div_mod_converse(4 * p + c, 4, p, c);
        assert(p < rows * width) by (nonlinear_arith)
            requires
                p == y * width + x,
                0 <= y < rows,
                0 <= x < width,
        ;
    }
}

/// `a` is `old` capped at `limit`: no more than either, and one of them.
pub open spec fn capped_at(a: u8, old: u8, limit: u8) -> bool {
    &&& a <= old
    &&& a <= limit
    &&& (a == old || a == limit)
}

/// Fading touches opacity only, and only in the faded rows: every red,
/// green and blue byte stays; the opacity of pixel `x` of row
/// `first_row + r` becomes the lower of its old opacity and `limits[r]`;
/// the opacity of every pixel outside those rows stays.
pub proof fn lemma_fade_caps_opacity_only(
    data: Seq<u8>,
    width: u32,
    first_row: u32,
    limits: Seq<u8>,
)
    ensures
        faded(data, width, first_row, limits).len() == data.len(),
        forall|i: int|
            0 <= i < data.len() && i % 4 != 3 ==> #[trigger] faded(data, width, first_row, limits)[i]
                == data[i],
        forall|r: int, x: int|
            0 <= r < limits.len() && 0 <= x < width && 4 * ((first_row + r) * width + x) + 3
                < data.len() ==> #[trigger] capped_at(
                faded(data, width, first_row, limits)[4 * ((first_row + r) * width + x) + 3],
                data[4 * ((first_row + r) * width + x) + 3],
                limits[r],
            ),
        forall|p: int|
            0 <= p && 4 * p + 3 < data.len() && (p < first_row * width || p >= (first_row
                + limits.len()) * width) ==> #[trigger] faded(data, width, first_row, limits)[4 * p
                + 3] == data[4 * p + 3],
{
    let out = faded(data, width, first_row, limits);
    assert forall|r: int, x: int|
        0 <= r < limits.len() && 0 <= x < width && 4 * ((first_row + r) * width + x) + 3
            < data.len() implies #[trigger] capped_at(
        faded(data, width, first_row, limits)[4 * ((first_row + r) * width + x) + 3],
        data[4 * ((first_row + r) * width + x) + 3],
        limits[r],
    ) by {
        let p = (first_row + r) * width + x;
        let i = 4 * p + 3;
        lemma_fundamental_div_mod_converse(i, 4, p, 3);
        lemma_fundamental_div_mod_converse(p, width as int, first_row + r, x);
    }
    assert forall|p: int|
        0 <= p && 4 * p + 3 < data.len() && (p < first_row * width || p >= (first_row
            + limits.len()) * width) implies #[trigger] faded(data, width, first_row, limits)[4 * p
        + 3] == data[4 * p + 3] by {
        let i = 4 * p + 3;
        lemma_fundamental_div_mod_converse(i, 4, p, 3);
        if width > 0 {
            let y = p / (width as int);
            if first_row <= y < first_row + limits.len() {
                assert(first_row * width <= p < (first_row + limits.len()) * width) by (
                nonlinear_arith)
                    requires
                        first_row <= y < first_row + limits.len(),
                        y == p / (width as int),
                        width > 0,
                        p >= 0,
                ;
            }
        }
    }
}

proof fn lemma_rows_fit(width: u32, height: u32, rows: int, len: nat)
    requires
        0 <= rows <= height,
        4 * width * height <= len,
    ensures
        0 <= rows * width <= width * height,
        4 * (rows * width) <= len,
{
    assert(rows * width <= height * width) by (nonlinear_arith)
        requires
            0 <= rows <= height,
            width >= 0,
    ;
    assert(height * width == width * height) by (nonlinear_arith);
    assert(4 * width * height == 4 * (width * height)) by (nonlinear_arith);
    assert(0 <= rows * width) by (nonlinear_arith)
        requires
            rows >= 0,
            width >= 0,
    ;
}

/// Makes the first `rows` rows of the image fully transparent black.
pub fn clear_rows(img: &mut PixelBuffer, rows: u32)
    requires
        rows <= old(img).height,
        4 * old(img).width * old(img).height <= old(img).data@.len(),
    ensures
        final(img).width == old(img).width,
        final(img).height == old(img).height,
        final(img).data@ == cleared(old(img).data@, old(img).width, rows),
        forall|i: int|
            0 <= i < 4 * (rows * old(img).width) ==> #[trigger] final(img).data@[i] == 0,
        forall|i: int|
            4 * (rows * old(img).width) <= i < old(img).data@.len() ==> #[trigger] final(img).data@[i]
                == old(img).data@[i],
{
    let ghost d0 = img.data@;
    let len = img.data.len();
    proof {
        lemma_rows_fit(img.width, img.height, rows as int, d0.len());
    }
    assert(4 * (rows * img.width) <= len);
    let end: usize = 4 * (rows as usize * img.width as usize);
    let mut i: usize = 0;
    while i < end
        invariant
            end == 4 * (rows * img.width),
            end <= d0.len(),
            img.width == old(img).width,
            img.height == old(img).height,
            i <= end,
            i % 4 == 0,
            img.data@.len() == d0.len(),
            forall|j: int|
                0 <= j < d0.len() ==> #[trigger] img.data@[j] == if j < i {
                    0u8
                } else {
                    d0[j]
                },
        decreases end - i,
    {
        img.data.set(i, 0);
        img.data.set(i + 1, 0);
        img.data.set(i + 2, 0);
        img.data.set(i + 3, 0);
        i = i + 4;
    }
    assert(img.data@ =~= cleared(d0, img.width, rows));
    proof {
        lemma_clear_blanks_whole_rows(d0, img.width, rows);
    }
}

/// Caps the opacity of rows `first_row .. first_row + limits.len()`: no
/// pixel of row `first_row + r` stays more opaque than `limits[r]`.
pub fn fade_rows(img: &mut PixelBuffer, first_row: u32, limits: &[u8])
    requires
        first_row + limits@.len() <= old(img).height,
        4 * old(img).width * old(img).height <= old(img).data@.len(),
    ensures
        final(img).width == old(img).width,
        final(img).height == old(img).height,
        final(img).data@ == faded(old(img).data@, old(img).width, first_row, limits@),
        forall|i: int|
            0 <= i < old(img).data@.len() && i % 4 != 3 ==> #[trigger] final(img).data@[i]
                == old(img).data@[i],
        forall|i: int|
            0 <= i < old(img).data@.len() ==> #[trigger] final(img).data@[i] <= old(img).data@[i],
{
    let ghost d0 = img.data@;
    let len = img.data.len();
    let width = img.width;
    if width == 0 {
        assert(img.data@ =~= faded(d0, width, first_row, limits@));
        proof {
            lemma_fade_caps_opacity_only(d0, width, first_row, limits@);
        }
        return;
    }
    proof {
        lemma_rows_fit(img.width, img.height, first_row as int, d0.len());
        lemma_rows_fit(img.width, img.height, first_row + limits@.len(), d0.len());
    }
    assert(4 * ((first_row + limits@.len()) * width) <= len);
    let w = width as usize;
    let start: usize = first_row as usize * w;
    let end: usize = (first_row as usize + limits.len()) * w;
    assert(start <= end) by (nonlinear_arith)
        requires
            start == first_row * width,
            end == (first_row + limits@.len()) * width,
            width > 0,
    ;
    let mut p: usize = start;
    while p < end
        invariant
            w == width,
            width > 0,
            start == first_row * width,
            end == (first_row + limits@.len()) * width,
            4 * end <= d0.len(),
            d0.len() == len,
            img.width == old(img).width,
            img.height == old(img).height,
            start <= p <= end,
            img.data@.len() == d0.len(),
            forall|j: int|
                0 <= j < d0.len() ==> #[trigger] img.data@[j] == if j % 4 == 3 && start <= j / 4
                    < p {
                    faded(d0, width, first_row, limits@)[j]
                } else {
                    d0[j]
                },
        decreases end - p,
    {
        proof {
            assert(p / w >= first_row) by (nonlinear_arith)
                requires
                    p >= first_row * w,
                    w > 0,
            ;
            assert(p / w < first_row + limits@.len()) by (nonlinear_arith)
                requires
                    p < (first_row + limits@.len()) * w,
                    w > 0,
            ;
        }
        let r = p / w - first_row as usize;
        let a = img.data[4 * p + 3];
        let limit = limits[r];
        if limit < a {
            img.data.set(4 * p + 3, limit);
        }
        assert forall|j: int|
            0 <= j < d0.len() implies #[trigger] img.data@[j] == if j % 4 == 3 && start <= j / 4 < p
                + 1 {
            faded(d0, width, first_row, limits@)[j]
        } else {
            d0[j]
        } by {
            if j == 4 * p + 3 {
                assert(j / 4 == p);
                assert((j / 4) / (width as int) == p / w);
            }
        }
        p = p + 1;
    }
    assert forall|j: int| 0 <= j < d0.len() implies #[trigger] img.data@[j] == faded(
        d0,
        width,
        first_row,
        limits@,
    )[j] by {
        if j % 4 == 3 && !(start <= j / 4 < end) {
            let y = (j / 4) / (width as int);
            if first_row <= y < first_row + limits@.len() {
                assert(start <= j / 4 < end) by (nonlinear_arith)
                    requires
                        first_row <= y < first_row + limits@.len(),
                        y == (j / 4) / (width as int),
                        width > 0,
                        j >= 0,
                        start == first_row * width,
                        end == (first_row + limits@.len()) * width,
                ;
            }
        }
    }
    assert(img.data@ =~= faded(d0, width, first_row, limits@));
    proof {
        lemma_fade_caps_opacity_only(d0, width, first_row, limits@);
    }
}

} // verus!
