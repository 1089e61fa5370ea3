//! The flat RGB frame buffer: three bytes per pixel, rows stored one after another.
use vstd::prelude::*;

verus! {

/// One pixel: its red, green and blue channel, each from 0 to 255.
#[derive(Clone, Copy, Debug, PartialEq, Eq, Structural)]
pub struct Rgb {
    pub r: u8,
    pub g: u8,
    pub b: u8,
}

/// Offset of the first byte of pixel `(x, y)` in a buffer whose rows hold `width` pixels.
pub open spec fn pixel_index(x: int, y: int, width: int) -> int {
    (y * width + x) * 3
}

/// Number of bytes in a buffer of `width` by `height` pixels.
pub open spec fn buffer_len(width: int, height: int) -> int {
    width * height * 3
}

/// The `k`-th pixel stored in the buffer `s`, counting from zero.
pub open spec fn nth_pixel(s: Seq<u8>, k: int) -> Rgb {
    Rgb { r: s[k * 3], g: s[k * 3 + 1], b: s[k * 3 + 2] }
}

/// The pixel `(x, y)` as it is stored in the buffer `s`: the three bytes that start
/// at `pixel_index(x, y, width)`.
pub open spec fn pixel_at(s: Seq<u8>, x: int, y: int, width: int) -> Rgb {
    nth_pixel(s, y * width + x)
}

/// Offset of the first byte of pixel `(x, y)` in a row-major RGB buffer whose rows
/// hold `width` pixels.
pub fn to_index(x: usize, y: usize, width: usize) -> (i: usize)
    requires
        pixel_index(x as int, y as int, width as int) <= usize::MAX,
    ensures
        i == pixel_index(x as int, y as int, width as int),
{
    assert(y * width <= (y * width + x) * 3) by (nonlinear_arith);
    (y * width + x) * 3
}

/// Every pixel of a `width` by `height` image lies wholly inside the buffer.
pub proof fn lemma_pixel_in_bounds(x: int, y: int, width: int, height: int)
    requires
        0 <= x < width,
        0 <= y < height,
    ensures
        0 <= pixel_index(x, y, width),
        pixel_index(x, y, width) + 3 <= buffer_len(width, height),
{
    assert(0 <= y * width && y * width + width <= height * width) by (nonlinear_arith)
        requires
            0 <= y < height,
            0 < width,
    ;
    assert(height * width == width * height) by (nonlinear_arith);
}

/// Two different pixels never share a byte: their offsets are at least three apart.
pub proof fn lemma_pixels_disjoint(x1: int, y1: int, x2: int, y2: int, width: int)
    requires
        0 <= x1 < width,
        0 <= x2 < width,
        0 <= y1,
        0 <= y2,
        x1 != x2 || y1 != y2,
    ensures
        pixel_index(x1, y1, width) + 3 <= pixel_index(x2, y2, width) || pixel_index(x2, y2, width)
            + 3 <= pixel_index(x1, y1, width),
{
    if y1 < y2 {
        assert(y1 * width + width <= y2 * width) by (nonlinear_arith)
            requires
                y1 < y2,
                0 < width,
        ;
    } else if y2 < y1 {
        assert(y2 * width + width <= y1 * width) by (nonlinear_arith)
            requires
                y2 < y1,
                0 < width,
        ;
    }
}

/// Every byte of the buffer belongs to the pixel in column `(i / 3) % width` of row
/// `(i / 3) / width`, so the pixels cover the buffer without gaps.
pub proof fn lemma_byte_belongs_to_pixel(i: int, width: int, height: int)
    requires
        0 <= i < buffer_len(width, height),
        0 < width,
    ensures
        0 <= (i / 3) % width < width,
        0 <= (i / 3) / width < height,
        pixel_index((i / 3) % width, (i / 3) / width, width) + i % 3 == i,
{
    let p: int = i / 3;
    vstd::arithmetic::div_mod::lemma_fundamental_div_mod(p, width);
    vstd::arithmetic::div_mod::lemma_mod_bound(p, width);
    assert(p < width * height);
    let q: int = p / width;
    assert(width * q + p % width == p);
    assert(q * width == width * q) by (nonlinear_arith);
    assert(0 <= q < height) by (nonlinear_arith)
        requires
            0 <= p < width * height,
            0 < width,
            width * q + p % width == p,
            0 <= p % width < width,
    ;
}

/// Number of bytes in the buffer of a `width` by `height` image, or `None` where that
/// number is more than `usize::MAX`.
pub fn checked_buffer_len(width: usize, height: usize) -> (len: Option<usize>)
    ensures
        len == if buffer_len(width as int, height as int) <= usize::MAX {
            Some(buffer_len(width as int, height as int) as usize)
        } else {
            None::<usize>
        },
{
    assert(width * height <= width * height * 3) by (nonlinear_arith);
    match width.checked_mul(height) {
        Some(pixels) => pixels.checked_mul(3),
        None => None,
    }
}

/// Why a camera cannot render an image of some width and height.
#[derive(Clone, Copy, Debug, PartialEq, Eq, Structural)]
pub enum DimensionError {
    /// Fewer than two columns: a pixel's horizontal position, `x / (width - 1)`, would
    /// divide by zero.
    TooNarrow,
    /// Fewer than two rows: a pixel's vertical position, `y / (height - 1)`, would
    /// divide by zero.
    TooShort,
    /// More bytes than `usize::MAX`.
    TooLarge,
}

/// What `validate_dimensions` answers: the length of the buffer, or the first reason
/// against the dimensions.
pub open spec fn validated(width: int, height: int) -> Result<usize, DimensionError> {
    if width < 2 {
        Err(DimensionError::TooNarrow)
    } else if height < 2 {
        Err(DimensionError::TooShort)
    } else if buffer_len(width, height) > usize::MAX {
        Err(DimensionError::TooLarge)
    } else {
        Ok(buffer_len(width, height) as usize)
    }
}

/// Tells whether a camera can render a `width` by `height` image, which takes at
/// least two columns, at least two rows and a buffer that fits into memory, and
/// returns the length of that buffer.
pub fn validate_dimensions(width: usize, height: usize) -> (r: Result<usize, DimensionError>)
    ensures
        r == validated(width as int, height as int),
{
    if width < 2 {
        return Err(DimensionError::TooNarrow);
    }
    if height < 2 {
        return Err(DimensionError::TooShort);
    }
    match checked_buffer_len(width, height) {
        Some(len) => Ok(len),
        None => Err(DimensionError::TooLarge),
    }
}

/// Whether `image` is the buffer of a `width` by `height` image in which every pixel
/// has a colour that `shade` can return for it.
pub open spec fn is_render_of<F: Fn(usize, usize) -> Rgb>(
    image: Seq<u8>,
    width: usize,
    height: usize,
    shade: F,
) -> bool {
    &&& image.len() == buffer_len(width as int, height as int)
    &&& forall|x: usize, y: usize|
        x < width && y < height ==> call_ensures(
            shade,
            (x, y),
            #[trigger] pixel_at(image, x as int, y as int, width as int),
        )
}

/// Whether `shade` can return only one colour for each pixel.
pub open spec fn is_deterministic<F: Fn(usize, usize) -> Rgb>(shade: F) -> bool {
    forall|x: usize, y: usize, c1: Rgb, c2: Rgb|
        #![trigger call_ensures(shade, (x, y), c1), call_ensures(shade, (x, y), c2)]
        call_ensures(shade, (x, y), c1) && call_ensures(shade, (x, y), c2) ==> c1 == c2
}

/// A shading function that can return only one colour for each pixel has only one
/// render: the colours of the pixels fix every byte of the buffer.
pub proof fn lemma_render_unique<F: Fn(usize, usize) -> Rgb>(
    a: Seq<u8>,
    b: Seq<u8>,
    width: usize,
    height: usize,
    shade: F,
)
    requires
        is_render_of(a, width, height, shade),
        is_render_of(b, width, height, shade),
        is_deterministic(shade),
    ensures
        a == b,
{
    assert forall|i: int| 0 <= i < a.len() implies a[i] == b[i] by {
        assert(width > 0) by (nonlinear_arith)
            requires
                0 < buffer_len(width as int, height as int),
                buffer_len(width as int, height as int) == width * height * 3,
        ;
        lemma_byte_belongs_to_pixel(i, width as int, height as int);
        let x: usize = ((i / 3) % (width as int)) as usize;
        let y: usize = ((i / 3) / (width as int)) as usize;
        let pa = pixel_at(a, x as int, y as int, width as int);
        let pb = pixel_at(b, x as int, y as int, width as int);
        assert(call_ensures(shade, (x, y), pa) && call_ensures(shade, (x, y), pb));
        assert(pa == pb);
    }
    assert(a =~= b);
}

/// Builds the frame buffer of a `width` by `height` image by asking `shade` once for
/// the colour of every pixel and storing it at the pixel's place. Column 0 is shaded
/// first, and within a column row 0.
pub fn render_image<F: Fn(usize, usize) -> Rgb>(width: usize, height: usize, shade: F) -> (image:
    Vec<u8>)
    requires
        buffer_len(width as int, height as int) <= usize::MAX,
        forall|x: usize, y: usize| x < width && y < height ==> call_requires(shade, (x, y)),
    ensures
        is_render_of(image@, width, height, shade),
{
    assert(height * width <= height * width * 3 && height * width * 3 == buffer_len(
        width as int,
        height as int,
    )) by (nonlinear_arith);
    let mut image: Vec<u8> = vec![0u8; height * width * 3];
    for x in 0..width
        invariant
            buffer_len(width as int, height as int) <= usize::MAX,
            image@.len() == buffer_len(width as int, height as int),
            forall|px: usize, py: usize| px < width && py < height ==> call_requires(shade, (px, py)),
            forall|px: usize, py: usize|
                px < x && py < height ==> call_ensures(
                    shade,
                    (px, py),
                    #[trigger] pixel_at(image@, px as int, py as int, width as int),
                ),
    {
        for y in 0..height
            invariant
                x < width,
                buffer_len(width as int, height as int) <= usize::MAX,
                image@.len() == buffer_len(width as int, height as int),
                forall|px: usize, py: usize|
                    px < width && py < height ==> call_requires(shade, (px, py)),
                forall|px: usize, py: usize|
                    (px < x || (px == x && py < y)) && py < height ==> call_ensures(
                        shade,
                        (px, py),
                        #[trigger] pixel_at(image@, px as int, py as int, width as int),
                    ),
        {
            proof {
                lemma_pixel_in_bounds(x as int, y as int, width as int, height as int);
            }
            let ghost before = image@;
            let i: usize = to_index(x, y, width);
            let color: Rgb = shade(x, y);
            image[i] = color.r;
            image[i + 1] = color.g;
            image[i + 2] = color.b;
            proof {
                assert(pixel_at(image@, x as int, y as int, width as int) == color);
                assert forall|px: usize, py: usize|
                    (px < x || (px == x && py < y + 1)) && py < height implies call_ensures(
                    shade,
                    (px, py),
                    #[trigger] pixel_at(image@, px as int, py as int, width as int),
                ) by {
                    if px != x || py != y {
                        lemma_pixel_in_bounds(px as int, py as int, width as int, height as int);
                        lemma_pixels_disjoint(
                            px as int,
                            py as int,
                            x as int,
                            y as int,
                            width as int,
                        );
                        assert(pixel_at(image@, px as int, py as int, width as int) == pixel_at(
                            before,
                            px as int,
                            py as int,
                            width as int,
                        ));
                    }
                }
            }
        }
    }
    image
}

/// Position from which byte `i` of a flipped buffer is taken: the same column of the
/// row that lies as far from the bottom as the row of `i` lies from the top. `row` is
/// the number of bytes in one row.
pub open spec fn mirror_index(i: int, row: int, height: int) -> int {
    (height - 1 - i / row) * row + i % row
}

/// The buffer `s` with its first `height` rows in reverse order. Bytes behind the
/// last row, if there are any, stay where they are.
pub open spec fn flipped(s: Seq<u8>, width: int, height: int) -> Seq<u8> {
    Seq::new(
        s.len(),
        |i: int|
            if i < buffer_len(width, height) {
                s[mirror_index(i, width * 3, height)]
            } else {
                s[i]
            },
    )
}

/// The byte in column `c` of row `r` is taken from column `c` of row `height - 1 - r`.
pub proof fn lemma_mirror_in_row(r: int, c: int, row: int, height: int)
    requires
        0 <= c < row,
    ensures
        mirror_index(r * row + c, row, height) == (height - 1 - r) * row + c,
{
    vstd::arithmetic::div_mod::lemma_fundamental_div_mod_converse(r * row + c, row, r, c);
}

/// After a flip, the pixel in column `x` of row `y` is the one that stood in column
/// `x` of row `height - 1 - y`.
pub proof fn lemma_flipped_pixel(s: Seq<u8>, x: int, y: int, width: int, height: int)
    requires
        0 <= x < width,
        0 <= y < height,
        buffer_len(width, height) <= s.len(),
    ensures
        pixel_at(flipped(s, width, height), x, y, width) == pixel_at(
            s,
            x,
            height - 1 - y,
            width,
        ),
{
    let i: int = pixel_index(x, y, width);
    let j: int = pixel_index(x, height - 1 - y, width);
    lemma_pixel_in_bounds(x, y, width, height);
    lemma_pixel_in_bounds(x, height - 1 - y, width, height);
    assert(i == y * (width * 3) + x * 3 && j == (height - 1 - y) * (width * 3) + x * 3)
        by (nonlinear_arith)
        requires
            i == (y * width + x) * 3,
            j == ((height - 1 - y) * width + x) * 3,
    ;
    lemma_mirror_in_row(y, x * 3, width * 3, height);
    lemma_mirror_in_row(y, x * 3 + 1, width * 3, height);
    lemma_mirror_in_row(y, x * 3 + 2, width * 3, height);
}

/// Flipping twice gives back the buffer that one started with.
pub proof fn lemma_flip_twice(s: Seq<u8>, width: int, height: int)
    requires
        0 <= width,
        0 <= height,
        height >= 2 ==> buffer_len(width, height) <= s.len(),
    ensures
        flipped(flipped(s, width, height), width, height) == s,
{
    let row: int = width * 3;
    let once = flipped(s, width, height);
    assert forall|i: int| 0 <= i < s.len() implies flipped(once, width, height)[i] == s[i] by {
        if i < buffer_len(width, height) {
            assert(buffer_len(width, height) == row * height && row > 0) by (nonlinear_arith)
                requires
                    buffer_len(width, height) == width * height * 3,
                    row == width * 3,
                    buffer_len(width, height) > 0,
                    0 <= width,
            ;
            let r: int = i / row;
            let c: int = i % row;
            vstd::arithmetic::div_mod::lemma_fundamental_div_mod(i, row);
            vstd::arithmetic::div_mod::lemma_mod_bound(i, row);
            assert(0 <= r < height && r * row + c == i && 0 <= (height - 1 - r) * row && (height
                - 1 - r) * row + row <= row * height) by (nonlinear_arith)
                requires
                    0 <= i < row * height,
                    0 < row,
                    row * r + c == i,
                    0 <= c < row,
            ;
            let j: int = (height - 1 - r) * row + c;
            lemma_mirror_in_row(height - 1 - r, c, row, height);
            assert(mirror_index(i, row, height) == j);
            assert(mirror_index(j, row, height) == i);
            if height >= 2 {
                assert(once[j] == s[i]);
            } else {
                assert(j == i);
            }
        }
    }
    assert(flipped(once, width, height) =~= s);
}

/// Reverses the order of the rows of `image` in place, so that the row that was
/// written first comes last. With an odd number of rows the middle one stays.
pub fn flip_image_vertically(image: &mut [u8], width: usize, height: usize)
    requires
        height >= 2 ==> buffer_len(width as int, height as int) <= old(image)@.len(),
    ensures
        final(image)@ == flipped(old(image)@, width as int, height as int),
{
    let ghost initial = image@;
    let len: usize = image.len();
    if height < 2 || width == 0 {
        proof {
            assert forall|i: int| 0 <= i < initial.len() implies initial[i] == flipped(
                initial,
                width as int,
                height as int,
            )[i] by {
                if i < buffer_len(width as int, height as int) {
                    assert(buffer_len(width as int, height as int) == width * 3 && height == 1)
                        by (nonlinear_arith)
                        requires
                            height < 2 || width == 0,
                            buffer_len(width as int, height as int) > 0,
                            buffer_len(width as int, height as int) == width * height * 3,
                    ;
                    lemma_mirror_in_row(0, i, width * 3, height as int);
                }
            }
            assert(image@ =~= flipped(initial, width as int, height as int));
        }
        return;
    }
    assert(width * 3 * height == buffer_len(width as int, height as int) && width * 3 <= width * 3
        * height) by (nonlinear_arith)
        requires
            height >= 2,
            buffer_len(width as int, height as int) == width * height * 3,
    ;
    let row: usize = width * 3;
    let half: usize = height / 2;
    let ghost total: int = row * height;
    for y in 0..half
        invariant
            row == width * 3,
            row > 0,
            half == height / 2,
            total == row * height,
            total == buffer_len(width as int, height as int),
            total <= len,
            image@.len() == len,
            initial.len() == len,
            forall|i: int|
                0 <= i < image@.len() ==> image@[i] == (if i < y * row || total - y * row <= i
                    < total {
                    initial[mirror_index(i, row as int, height as int)]
                } else {
                    initial[i]
                }),
    {
        assert((height - y - 1) * row == total - y * row - row && 0 <= y * row && y * row + row <= (
        height - y - 1) * row && (y + 1) * row == y * row + row) by (nonlinear_arith)
            requires
                total == row * height,
                0 <= y,
                y + 1 <= height - y - 1,
                row > 0,
        ;
        let top: usize = y * row;
        let bottom: usize = (height - y - 1) * row;
        let ghost before = image@;
        for x in 0..row
            invariant
                top + row <= bottom,
                bottom + row <= len,
                image@.len() == len,
                before.len() == len,
                forall|i: int|
                    0 <= i < image@.len() ==> image@[i] == (if top <= i < top + x {
                        before[i - top + bottom]
                    } else if bottom <= i < bottom + x {
                        before[i - bottom + top]
                    } else {
                        before[i]
                    }),
        {
            let upper: u8 = image[top + x];
            let lower: u8 = image[bottom + x];
            image[top + x] = lower;
            image[bottom + x] = upper;
        }
        proof {
            assert forall|i: int| 0 <= i < image@.len() implies image@[i] == (if i < (y + 1) * row
                || total - (y + 1) * row <= i < total {
                initial[mirror_index(i, row as int, height as int)]
            } else {
                initial[i]
            }) by {
                if top <= i < top + row {
                    lemma_mirror_in_row(y as int, i - top, row as int, height as int);
                } else if bottom <= i < bottom + row {
                    lemma_mirror_in_row(height - y - 1, i - bottom, row as int, height as int);
                }
            }
        }
    }
    proof {
        assert(half * row <= total - half * row && (height % 2 == 1 ==> total - half * row == half
            * row + row) && (height % 2 == 0 ==> total - half * row == half * row)) by (nonlinear_arith)
            requires
                total == row * height,
                half == height / 2,
                row > 0,
        ;
        assert forall|i: int| 0 <= i < image@.len() implies image@[i] == flipped(
            initial,
            width as int,
            height as int,
        )[i] by {
            if half * row <= i < total - half * row {
                lemma_mirror_in_row(half as int, i - half * row, row as int, height as int);
            }
        }
        assert(image@ =~= flipped(initial, width as int, height as int));
    }
}

} // verus!
