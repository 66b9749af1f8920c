use vstd::prelude::*;
use crate::imgtool::PixelBuffer;

verus! {

/// The RGBA bytes that `image::imageops::resize` with the `Nearest` filter
/// makes of an RGBA image of `width` x `height` pixels held in `data`, when
/// it is scaled to `new_width` x `new_height`.
pub uninterp spec fn resized_pixels(
    data: Seq<u8>,
    width: u32,
    height: u32,
    new_width: u32,
    new_height: u32,
) -> Seq<u8>;

/// The PNG file that `image::png::PNGEncoder` writes for the RGBA image of
/// `width` x `height` pixels held in `data`.
pub uninterp spec fn png_file(data: Seq<u8>, width: u32, height: u32) -> Seq<u8>;

/// The JPEG file that `image::jpeg::JPEGEncoder` writes for the RGBA image
/// of `width` x `height` pixels held in `data`.
pub uninterp spec fn jpeg_file(data: Seq<u8>, width: u32, height: u32) -> Seq<u8>;

/// `data` holds an RGBA image of `width` x `height` pixels, as
/// `ImageBuffer::from_raw` asks: at least `4 * width * height` bytes.
pub open spec fn holds_image(len: nat, width: u32, height: u32) -> bool {
    4 * width * height <= len
}

/// The inputs on which resizing with the `Nearest` filter returns: the
/// source is a whole image, both buffers that the resize allocates fit in
/// memory, and no empty side is sampled from (there the sample weights sum
/// to 0 and the conversion of the result to a byte fails).
pub open spec fn can_resize(len: nat, width: u32, height: u32, new_width: u32, new_height: u32) -> bool {
    &&& holds_image(len, width, height)
    &&& 4 * width * new_height <= usize::MAX
    &&& 4 * new_width * new_height <= usize::MAX
    &&& !(height == 0 && new_height > 0 && width > 0)
    &&& !(width == 0 && new_width > 0 && new_height > 0)
}

/// Output pixel `(x, y)` of the `new_width`-wide RGBA bytes `out` is
/// source pixel `(sx, sy)` of the `width`-wide RGBA bytes `data`.
pub open spec fn same_pixel(
    out: Seq<u8>,
    new_width: u32,
    x: int,
    y: int,
    data: Seq<u8>,
    width: u32,
    sx: int,
    sy: int,
) -> bool {
    forall|c: int|
        0 <= c < 4 ==> #[trigger] out[4 * (y * new_width + x) + c] == data[4 * (sy * width + sx)
            + c]
}

/// `out` samples `data` on a grid: column `x` of the output reads source
/// column `cols[x]`, row `y` reads source row `rows[y]`, both in range and
/// non-decreasing, so the picture keeps its orientation and layout.
pub open spec fn sampled_on_grid(
    out: Seq<u8>,
    data: Seq<u8>,
    width: u32,
    height: u32,
    new_width: u32,
    new_height: u32,
    cols: Seq<int>,
    rows: Seq<int>,
) -> bool {
    &&& cols.len() == new_width
    &&& rows.len() == new_height
    &&& forall|x: int| 0 <= x < new_width ==> 0 <= #[trigger] cols[x] < width
    &&& forall|y: int| 0 <= y < new_height ==> 0 <= #[trigger] rows[y] < height
    &&& forall|x1: int, x2: int| 0 <= x1 <= x2 < new_width ==> cols[x1] <= cols[x2]
    &&& forall|y1: int, y2: int| 0 <= y1 <= y2 < new_height ==> rows[y1] <= rows[y2]
    &&& forall|x: int, y: int|
        0 <= x < new_width && 0 <= y < new_height ==> #[trigger] same_pixel(
            out,
            new_width,
            x,
            y,
            data,
            width,
            cols[x],
            rows[y],
        )
}

/// `out` is a nearest-pixel resize of `data`: some grid of source columns
/// and rows gives every output pixel.
pub open spec fn nearest_resize_of(
    out: Seq<u8>,
    data: Seq<u8>,
    width: u32,
    height: u32,
    new_width: u32,
    new_height: u32,
) -> bool {
    exists|cols: Seq<int>, rows: Seq<int>|
        sampled_on_grid(out, data, width, height, new_width, new_height, cols, rows)
}

/// Big-endian number in the four bytes of `s` from `at`.
pub open spec fn be32(s: Seq<u8>, at: int) -> int {
    s[at] * 16777216 + s[at + 1] * 65536 + s[at + 2] * 256 + s[at + 3]
}

/// Big-endian number in the two bytes of `s` from `at`.
pub open spec fn be16(s: Seq<u8>, at: int) -> int {
    s[at] * 256 + s[at + 1]
}

/// `f` starts as a PNG file whose header chunk records an 8-bit RGBA image
/// of `width` x `height` pixels.
pub open spec fn png_records_shape(f: Seq<u8>, width: u32, height: u32) -> bool {
    &&& f.len() >= 33
    &&& f.take(8) == seq![137u8, 80, 78, 71, 13, 10, 26, 10]
    &&& f.subrange(8, 16) == seq![0u8, 0, 0, 13, 73, 72, 68, 82]
    &&& be32(f, 16) == width
    &&& be32(f, 20) == height
    &&& f[24] == 8
    &&& f[25] == 6
}

/// `f` starts as a JPEG file whose frame header records an 8-bit image of
/// three components, `height` rows of `width` pixels.
pub open spec fn jpeg_records_shape(f: Seq<u8>, width: u32, height: u32) -> bool {
    &&& f.len() >= 29
    &&& f[0] == 0xFF
    &&& f[1] == 0xD8
    &&& f[20] == 0xFF
    &&& f[21] == 0xC0
    &&& f[24] == 8
    &&& be16(f, 25) == height
    &&& be16(f, 27) == width
}

/// Calls `image::ImageBuffer::from_raw` and `image::imageops::resize` with
/// `FilterType::Nearest`. Trusted: the result is named `resized_pixels` of
/// the arguments, and holds `4 * new_width * new_height` bytes, as the
/// buffer that `resize` allocates for its output has that size. The resize
/// samples rows first (`vertical_sample`), then columns
/// (`horizontal_sample`); with the `Nearest` filter (support 0, box kernel)
/// every output row, and then every output column, is one source row or
/// column, at `clamp(floor((i + 0.5) * ratio))` computed in `f32`, which is
/// non-decreasing in `i`: so the result samples the source on a grid. When
/// the size stays and both sides are at most 2^23, the ratio is exactly 1
/// and `i + 0.5` is exact, so every pixel stays where it is. Which source
/// column an output column reads is left unsaid: the `f32` rounding of the
/// ratio decides it.
#[verifier::external_body]
fn resize_nearest(data: &[u8], width: u32, height: u32, new_width: u32, new_height: u32) -> (out: Vec<u8>)
    requires
        can_resize(data@.len(), width, height, new_width, new_height),
    ensures
        out@ == resized_pixels(data@, width, height, new_width, new_height),
        out@.len() == 4 * new_width * new_height,
        new_width > 0 && new_height > 0 ==> nearest_resize_of(
            out@,
            data@,
            width,
            height,
            new_width,
            new_height,
        ),
        new_width == width && new_height == height && width <= 0x80_0000 && height <= 0x80_0000
            ==> out@ == data@.take(4 * width * height),
{
    let img = image::ImageBuffer::<image::Rgba<u8>, &[u8]>::from_raw(width, height, data).unwrap();
    image::imageops::resize(&img, new_width, new_height, image::imageops::FilterType::Nearest).into_raw()
}

/// Calls `image::png::PNGEncoder::encode` on the bytes with `ColorType::Rgba8`.
/// Trusted: the encoder succeeds exactly when both sides are positive and
/// the bytes are exactly one image, and the file it writes is named
/// `png_file` of the arguments. The file starts with the PNG signature and
/// the 13-byte header chunk that `png::Writer::init` writes: the width,
/// then the height, big-endian, bit depth 8 and colour type 6 (RGBA). The
/// compressed pixels are left unsaid.
#[verifier::external_body]
fn png_encode(data: &[u8], width: u32, height: u32) -> (out: Option<Vec<u8>>)
    requires
        4 * width + 1 <= usize::MAX,
        4 * width * height <= usize::MAX,
    ensures
        out.is_some() <==> (width > 0 && height > 0 && data@.len() == 4 * width * height),
        out matches Some(file) ==> file@ == png_file(data@, width, height),
        out matches Some(file) ==> png_records_shape(file@, width, height),
{
    let mut file: Vec<u8> = Vec::new();
    let res = image::png::PNGEncoder::new(&mut file).encode(data, width, height, image::ColorType::Rgba8);
    match res {
        Ok(()) => Some(file),
        Err(_) => None,
    }
}

/// Calls `image::jpeg::JPEGEncoder::encode` on the bytes with
/// `ColorType::Rgba8`. Trusted: the encoder fails exactly when a side does
/// not fit a `u16`, and the file it writes is named `jpeg_file` of the
/// arguments. It writes the start marker, an 18-byte JFIF segment, then the
/// frame header (`build_frame_header`): precision 8, the height, then the
/// width, big-endian. The compressed pixels are left unsaid.
#[verifier::external_body]
fn jpeg_encode(data: &[u8], width: u32, height: u32) -> (out: Option<Vec<u8>>)
    requires
        holds_image(data@.len(), width, height),
    ensures
        out.is_some() <==> (width <= u16::MAX && height <= u16::MAX),
        out matches Some(file) ==> file@ == jpeg_file(data@, width, height),
        out matches Some(file) ==> jpeg_records_shape(file@, width, height),
{
    let mut file: Vec<u8> = Vec::new();
    let res = image::jpeg::JPEGEncoder::new(&mut file).encode(data, width, height, image::ColorType::Rgba8);
    match res {
        Ok(()) => Some(file),
        Err(_) => None,
    }
}

/// Scales an image to `new_width` x `new_height` pixels, picking the
/// nearest source pixel for every target pixel.
pub fn resize_image(img: &PixelBuffer, new_width: u32, new_height: u32) -> (out: PixelBuffer)
    requires
        can_resize(img.data@.len(), img.width, img.height, new_width, new_height),
    ensures
        out.width == new_width,
        out.height == new_height,
        out.data@ == resized_pixels(img.data@, img.width, img.height, new_width, new_height),
        out.data@.len() == 4 * new_width * new_height,
        new_width > 0 && new_height > 0 ==> nearest_resize_of(
            out.data@,
            img.data@,
            img.width,
            img.height,
            new_width,
            new_height,
        ),
        new_width == img.width && new_height == img.height && img.width <= 0x80_0000 && img.height
            <= 0x80_0000 ==> out.data@ == img.data@.take(4 * img.width * img.height),
{
    let data = resize_nearest(img.data.as_slice(), img.width, img.height, new_width, new_height);
    PixelBuffer { width: new_width, height: new_height, data }
}

/// The PNG file of an image, or `None` when the encoder refuses it: an
/// empty side, or bytes that are not exactly one image.
pub fn png_bytes(img: &PixelBuffer) -> (file: Option<Vec<u8>>)
    requires
        holds_image(img.data@.len(), img.width, img.height),
        4 * img.width + 1 <= usize::MAX,
    ensures
        file.is_some() <==> (img.width > 0 && img.height > 0 && img.data@.len() == 4 * img.width
            * img.height),
        file matches Some(f) ==> f@ == png_file(img.data@, img.width, img.height),
        file matches Some(f) ==> png_records_shape(f@, img.width, img.height),
{
    let len = img.data.len();
    assert(4 * img.width * img.height <= len);
    png_encode(img.data.as_slice(), img.width, img.height)
}

/// The JPEG file of an image, or `None` when a side is longer than the
/// format allows.
pub fn jpeg_bytes(img: &PixelBuffer) -> (file: Option<Vec<u8>>)
    requires
        holds_image(img.data@.len(), img.width, img.height),
    ensures
        file.is_some() <==> (img.width <= u16::MAX && img.height <= u16::MAX),
        file matches Some(f) ==> f@ == jpeg_file(img.data@, img.width, img.height),
        file matches Some(f) ==> jpeg_records_shape(f@, img.width, img.height),
{
    jpeg_encode(img.data.as_slice(), img.width, img.height)
}

/// Output pixel `(x, y)` is some pixel of source row `r`.
pub open spec fn pixel_from_row(
    out: Seq<u8>,
    new_width: u32,
    x: int,
    y: int,
    data: Seq<u8>,
    width: u32,
    r: int,
) -> bool {
    exists|s: int| 0 <= s < width && same_pixel(out, new_width, x, y, data, width, s, r)
}

/// Output pixel `(x, y)` is some pixel of source column `s`.
pub open spec fn pixel_from_column(
    out: Seq<u8>,
    new_width: u32,
    x: int,
    y: int,
    data: Seq<u8>,
    width: u32,
    height: u32,
    s: int,
) -> bool {
    exists|r: int| 0 <= r < height && same_pixel(out, new_width, x, y, data, width, s, r)
}

/// Every pixel of output row `y` is some pixel of source row `r`.
pub open spec fn row_from_one_row(
    out: Seq<u8>,
    new_width: u32,
    y: int,
    data: Seq<u8>,
    width: u32,
    r: int,
) -> bool {
    forall|x: int| 0 <= x < new_width ==> #[trigger] pixel_from_row(out, new_width, x, y, data, width, r)
}

/// Every pixel of output column `x` is some pixel of source column `s`.
pub open spec fn column_from_one_column(
    out: Seq<u8>,
    new_width: u32,
    new_height: u32,
    x: int,
    data: Seq<u8>,
    width: u32,
    height: u32,
    s: int,
) -> bool {
    forall|y: int|
        0 <= y < new_height ==> #[trigger] pixel_from_column(
            out,
            new_width,
            x,
            y,
            data,
            width,
            height,
            s,
        )
}

/// A nearest-pixel resize keeps rows whole: every pixel of output row `y`
/// comes from one and the same source row, and every pixel of output column
/// `x` from one and the same source column.
pub proof fn lemma_resize_keeps_rows_and_columns(
    out: Seq<u8>,
    data: Seq<u8>,
    width: u32,
    height: u32,
    new_width: u32,
    new_height: u32,
    x: int,
    y: int,
)
    requires
        nearest_resize_of(out, data, width, height, new_width, new_height),
        0 <= x < new_width,
        0 <= y < new_height,
    ensures
        exists|r: int|
            0 <= r < height && #[trigger] row_from_one_row(out, new_width, y, data, width, r),
        exists|s: int|
            0 <= s < width && #[trigger] column_from_one_column(
                out,
                new_width,
                new_height,
                x,
                data,
                width,
                height,
                s,
            ),
{
    let (cols, rows) = choose|cols: Seq<int>, rows: Seq<int>|
        sampled_on_grid(out, data, width, height, new_width, new_height, cols, rows);
    let r = rows[y];
    assert forall|x2: int| 0 <= x2 < new_width implies #[trigger] pixel_from_row(
        out,
        new_width,
        x2,
        y,
        data,
        width,
        r,
    ) by {
        assert(same_pixel(out, new_width, x2, y, data, width, cols[x2], rows[y]));
        assert(0 <= cols[x2] < width);
    }
    let s = cols[x];
    assert forall|y2: int| 0 <= y2 < new_height implies #[trigger] pixel_from_column(
        out,
        new_width,
        x,
        y2,
        data,
        width,
        height,
        s,
    ) by {
        assert(same_pixel(out, new_width, x, y2, data, width, cols[x], rows[y2]));
        assert(0 <= rows[y2] < height);
    }
    assert(0 <= r < height);
    assert(row_from_one_row(out, new_width, y, data, width, r));
    assert(0 <= s < width);
    assert(column_from_one_column(out, new_width, new_height, x, data, width, height, s));
}

/// A nearest-pixel resize keeps the order of the picture: of two output
/// pixels in one row, the left one reads a source pixel of one source row
/// no further right than the other; of two output pixels in one column,
/// the upper one reads a source pixel of one source column no lower.
pub proof fn lemma_resize_keeps_orientation(
    out: Seq<u8>,
    data: Seq<u8>,
    width: u32,
    height: u32,
    new_width: u32,
    new_height: u32,
    x1: int,
    x2: int,
    y1: int,
    y2: int,
)
    requires
        nearest_resize_of(out, data, width, height, new_width, new_height),
        0 <= x1 <= x2 < new_width,
        0 <= y1 <= y2 < new_height,
    ensures
        exists|s1: int, s2: int, r: int|
            #![trigger same_pixel(out, new_width, x1, y1, data, width, s1, r), same_pixel(out, new_width, x2, y1, data, width, s2, r)]
            0 <= s1 <= s2 < width && 0 <= r < height && same_pixel(
                out,
                new_width,
                x1,
                y1,
                data,
                width,
                s1,
                r,
            ) && same_pixel(out, new_width, x2, y1, data, width, s2, r),
        exists|r1: int, r2: int, s: int|
            #![trigger same_pixel(out, new_width, x1, y1, data, width, s, r1), same_pixel(out, new_width, x1, y2, data, width, s, r2)]
            0 <= r1 <= r2 < height && 0 <= s < width && same_pixel(
                out,
                new_width,
                x1,
                y1,
                data,
                width,
                s,
                r1,
            ) && same_pixel(out, new_width, x1, y2, data, width, s, r2),
{
    let (cols, rows) = choose|cols: Seq<int>, rows: Seq<int>|
        sampled_on_grid(out, data, width, height, new_width, new_height, cols, rows);
    assert(same_pixel(out, new_width, x1, y1, data, width, cols[x1], rows[y1]));
    assert(same_pixel(out, new_width, x2, y1, data, width, cols[x2], rows[y1]));
    assert(same_pixel(out, new_width, x1, y2, data, width, cols[x1], rows[y2]));
    assert(0 <= cols[x1] < width && 0 <= cols[x2] < width);
    assert(0 <= rows[y1] < height && 0 <= rows[y2] < height);
}

/// A PNG file tells the shape of its image: two shapes that one file
/// records are the same shape, so images of different shapes never share
/// a file.
pub proof fn lemma_png_shape_is_recorded(f: Seq<u8>, w1: u32, h1: u32, w2: u32, h2: u32)
    requires
        png_records_shape(f, w1, h1),
        png_records_shape(f, w2, h2),
    ensures
        w1 == w2,
        h1 == h2,
{
}

/// A JPEG file tells the shape of its image: two shapes that one file
/// records are the same shape.
pub proof fn lemma_jpeg_shape_is_recorded(f: Seq<u8>, w1: u32, h1: u32, w2: u32, h2: u32)
    requires
        jpeg_records_shape(f, w1, h1),
        jpeg_records_shape(f, w2, h2),
    ensures
        w1 == w2,
        h1 == h2,
{
}

} // verus!
