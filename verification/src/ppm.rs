//! The plain-text pixel map: a three-line header, then one line of three decimal
//! channel values for every pixel, top row first.
use crate::decimal::{
    all_digits, decimal, in_words, is_digit, lemma_decimal_is_decimal, lemma_number_from,
    lemma_number_unique, number_at, number_from, parse_decimal, push_decimal,
};
use crate::frame::{buffer_len, lemma_pixel_in_bounds, nth_pixel, to_index, Rgb};
use vstd::prelude::*;

verus! {

/// The largest value that a channel can take, as the header announces it.
pub const MAX_CHANNEL: usize = 255;

/// ASCII code of the letter `P`, with which every file begins.
pub const LETTER_P: u8 = 80;

/// ASCII code of the digit `3`, which marks the file as text with three channels.
pub const DIGIT_THREE: u8 = 51;

/// ASCII code of the space that separates two numbers on a line.
pub const SPACE: u8 = 32;

/// ASCII code of the line feed that ends every line.
pub const NEWLINE: u8 = 10;

/// The first line of every file: the letter `P`, the digit `3` and a line feed.
pub open spec fn magic() -> Seq<u8> {
    seq![LETTER_P, DIGIT_THREE, NEWLINE]
}

/// The header of an image: the magic line, the line with width and height, and the
/// line with the largest channel value.
pub open spec fn header_bytes(width: nat, height: nat, max_value: nat) -> Seq<u8> {
    magic() + decimal(width) + seq![SPACE] + decimal(height) + seq![NEWLINE] + decimal(max_value)
        + seq![NEWLINE]
}

/// The line that stands for one pixel: red, green and blue in decimal, with one space
/// between them and a line feed at the end.
pub open spec fn pixel_line(p: Rgb) -> Seq<u8> {
    decimal(p.r as nat) + seq![SPACE] + decimal(p.g as nat) + seq![SPACE] + decimal(p.b as nat)
        + seq![NEWLINE]
}

/// The lines of the first `count` pixels of `image`, in the order in which the buffer
/// stores them.
pub open spec fn pixel_lines(image: Seq<u8>, count: nat) -> Seq<u8>
    decreases count,
{
    if count == 0 {
        Seq::empty()
    } else {
        pixel_lines(image, (count - 1) as nat) + pixel_line(nth_pixel(image, count - 1))
    }
}

/// The whole file for a `width` by `height` image: the header, then the line of every
/// pixel.
pub open spec fn encoded(image: Seq<u8>, width: nat, height: nat) -> Seq<u8> {
    header_bytes(width, height, MAX_CHANNEL as nat) + pixel_lines(image, width * height)
}

/// What a header announces: the size of the image and the largest channel value.
#[derive(Clone, Copy, Debug, PartialEq, Eq, Structural)]
pub struct Header {
    pub width: usize,
    pub height: usize,
    pub max_value: usize,
}

/// Whether `s` begins with the header for the given width, height and largest value.
pub open spec fn starts_with_header(s: Seq<u8>, width: nat, height: nat, max_value: nat) -> bool {
    header_bytes(width, height, max_value).is_prefix_of(s)
}

/// The width, height and largest value of the header that `s` begins with, if it
/// begins with one.
pub open spec fn header_of(s: Seq<u8>) -> Option<(nat, nat, nat)> {
    if exists|width: nat, height: nat, max_value: nat|
        starts_with_header(s, width, height, max_value) {
        Some(
            choose|width: nat, height: nat, max_value: nat|
                starts_with_header(s, width, height, max_value),
        )
    } else {
        None
    }
}

/// The header with its three numbers as machine words, where all three fit.
pub open spec fn header_in_words(found: Option<(nat, nat, nat)>) -> Option<Header> {
    match found {
        Some((width, height, max_value)) => if width <= usize::MAX && height <= usize::MAX
            && max_value <= usize::MAX {
            Some(
                Header {
                    width: width as usize,
                    height: height as usize,
                    max_value: max_value as usize,
                },
            )
        } else {
            None
        },
        None => None,
    }
}

/// Writes the header of a `width` by `height` image. Reading the result back gives
/// `width`, `height` and the largest channel value.
pub fn encode_header(width: usize, height: usize) -> (out: Vec<u8>)
    ensures
        out@ == header_bytes(width as nat, height as nat, MAX_CHANNEL as nat),
        header_of(out@) == Some((width as nat, height as nat, MAX_CHANNEL as nat)),
{
    let mut out: Vec<u8> = Vec::new();
    out.push(LETTER_P);
    out.push(DIGIT_THREE);
    out.push(NEWLINE);
    assert(out@ =~= magic());
    push_decimal(&mut out, width);
    out.push(SPACE);
    push_decimal(&mut out, height);
    out.push(NEWLINE);
    push_decimal(&mut out, MAX_CHANNEL);
    out.push(NEWLINE);
    assert(out@ =~= header_bytes(width as nat, height as nat, MAX_CHANNEL as nat));
    proof {
        lemma_header_round_trip(width as nat, height as nat, MAX_CHANNEL as nat, Seq::empty());
    }
    out
}

/// Appends the line of the pixel `p` to `out`.
pub fn push_pixel_line(out: &mut Vec<u8>, p: Rgb)
    ensures
        final(out)@ == old(out)@ + pixel_line(p),
{
    push_decimal(out, p.r as usize);
    out.push(SPACE);
    push_decimal(out, p.g as usize);
    out.push(SPACE);
    push_decimal(out, p.b as usize);
    out.push(NEWLINE);
    assert(out@ =~= old(out)@ + pixel_line(p));
}

/// Writes the image held in `image` as text: the header, then the pixels row by row
/// from the start of the buffer, each row from left to right. Reading the header of
/// the result back gives `width`, `height` and the largest channel value.
pub fn encode_ppm(image: &[u8], width: usize, height: usize) -> (out: Vec<u8>)
    requires
        buffer_len(width as int, height as int) <= image@.len(),
    ensures
        out@ == encoded(image@, width as nat, height as nat),
        header_of(out@) == Some((width as nat, height as nat, MAX_CHANNEL as nat)),
{
    let mut out: Vec<u8> = encode_header(width, height);
    let ghost header = out@;
    assert(out@ =~= header + pixel_lines(image@, 0));
    assert(0 * width == 0);
    let len: usize = image.len();
    for y in 0..height
        invariant
            buffer_len(width as int, height as int) <= len,
            image@.len() == len,
            out@ == header + pixel_lines(image@, (y * width) as nat),
    {
        for x in 0..width
            invariant
                y < height,
                buffer_len(width as int, height as int) <= len,
                image@.len() == len,
                out@ == header + pixel_lines(image@, (y * width + x) as nat),
        {
            proof {
                lemma_pixel_in_bounds(x as int, y as int, width as int, height as int);
            }
            let i: usize = to_index(x, y, width);
            let p = Rgb { r: image[i], g: image[i + 1], b: image[i + 2] };
            push_pixel_line(&mut out, p);
            proof {
                let k: int = y * width + x;
                assert(0 <= y * width) by (nonlinear_arith);
                assert(p == nth_pixel(image@, k));
                assert(out@ =~= header + pixel_lines(image@, (k + 1) as nat));
            }
        }
        assert(y * width + width == (y + 1) * width) by (nonlinear_arith);
    }
    assert(height * width == width * height) by (nonlinear_arith);
    proof {
        lemma_header_round_trip(
            width as nat,
            height as nat,
            MAX_CHANNEL as nat,
            pixel_lines(image@, (width * height) as nat),
        );
    }
    out
}

/// Number of line feeds in `s`: the number of lines, where every line ends with one.
pub open spec fn line_count(s: Seq<u8>) -> nat
    decreases s.len(),
{
    if s.len() == 0 {
        0
    } else {
        line_count(s.drop_last()) + if s.last() == NEWLINE {
            1nat
        } else {
            0nat
        }
    }
}

/// The lines of two sequences add up when one is put behind the other.
pub proof fn lemma_line_count_add(a: Seq<u8>, b: Seq<u8>)
    ensures
        line_count(a + b) == line_count(a) + line_count(b),
    decreases b.len(),
{
    if b.len() == 0 {
        assert(a + b =~= a);
    } else {
        assert((a + b).drop_last() =~= a + b.drop_last());
        lemma_line_count_add(a, b.drop_last());
    }
}

/// Digits hold no line feed.
proof fn lemma_digits_hold_no_line(d: Seq<u8>)
    requires
        all_digits(d),
    ensures
        line_count(d) == 0,
    decreases d.len(),
{
    if d.len() > 0 {
        assert(d.drop_last().len() == d.len() - 1);
        assert forall|i: int| 0 <= i < d.drop_last().len() implies is_digit(
            #[trigger] d.drop_last()[i],
        ) by {
            assert(d.drop_last()[i] == d[i]);
        }
        lemma_digits_hold_no_line(d.drop_last());
        assert(is_digit(d[d.len() - 1]));
    }
}

/// A number and the byte behind it make a line exactly when that byte is a line feed.
proof fn lemma_field_lines(before: Seq<u8>, value: nat, separator: u8)
    ensures
        line_count(before + decimal(value) + seq![separator]) == line_count(before) + if separator
            == NEWLINE {
            1nat
        } else {
            0nat
        },
{
    lemma_decimal_is_decimal(value);
    lemma_digits_hold_no_line(decimal(value));
    lemma_line_count_add(before, decimal(value));
    lemma_line_count_add(before + decimal(value), seq![separator]);
    assert(seq![separator].drop_last() =~= Seq::<u8>::empty());
    assert(line_count(seq![separator].drop_last()) == 0);
}

/// A header is three lines.
pub proof fn lemma_header_line_count(width: nat, height: nat, max_value: nat)
    ensures
        line_count(header_bytes(width, height, max_value)) == 3,
{
    let m0 = Seq::<u8>::empty();
    let m1 = seq![LETTER_P];
    let m2 = seq![LETTER_P, DIGIT_THREE];
    assert(m1.drop_last() =~= m0);
    assert(m2.drop_last() =~= m1);
    assert(magic().drop_last() =~= m2);
    assert(line_count(m0) == 0);
    assert(line_count(m1) == 0);
    assert(line_count(m2) == 0);
    assert(line_count(magic()) == 1);
    lemma_field_lines(magic(), width, SPACE);
    lemma_field_lines(magic() + decimal(width) + seq![SPACE], height, NEWLINE);
    lemma_field_lines(
        magic() + decimal(width) + seq![SPACE] + decimal(height) + seq![NEWLINE],
        max_value,
        NEWLINE,
    );
}

/// The line of a pixel is one line.
pub proof fn lemma_pixel_line_count(p: Rgb)
    ensures
        line_count(pixel_line(p)) == 1,
{
    let none = Seq::<u8>::empty();
    assert(line_count(none) == 0);
    lemma_field_lines(none, p.r as nat, SPACE);
    assert(none + decimal(p.r as nat) =~= decimal(p.r as nat));
    lemma_field_lines(decimal(p.r as nat) + seq![SPACE], p.g as nat, SPACE);
    lemma_field_lines(
        decimal(p.r as nat) + seq![SPACE] + decimal(p.g as nat) + seq![SPACE],
        p.b as nat,
        NEWLINE,
    );
}

/// The lines of `count` pixels are `count` lines.
pub proof fn lemma_pixel_lines_count(image: Seq<u8>, count: nat)
    ensures
        line_count(pixel_lines(image, count)) == count,
    decreases count,
{
    if count > 0 {
        let head = pixel_lines(image, (count - 1) as nat);
        let last = pixel_line(nth_pixel(image, count - 1));
        lemma_pixel_lines_count(image, (count - 1) as nat);
        lemma_pixel_line_count(nth_pixel(image, count - 1));
        lemma_line_count_add(head, last);
    }
}

/// The file of a `width` by `height` image is three lines of header and one line for
/// every pixel.
pub proof fn lemma_encoded_line_count(image: Seq<u8>, width: nat, height: nat)
    ensures
        line_count(encoded(image, width, height)) == 3 + width * height,
{
    lemma_header_line_count(width, height, MAX_CHANNEL as nat);
    lemma_pixel_lines_count(image, width * height);
    lemma_line_count_add(
        header_bytes(width, height, MAX_CHANNEL as nat),
        pixel_lines(image, width * height),
    );
}

/// The same as `starts_with_header`, said field by field: the magic line, then the
/// three numbers, the first followed by a space and the other two by a line feed.
pub open spec fn header_fields(s: Seq<u8>, width: nat, height: nat, max_value: nat) -> bool {
    let e1: int = 3 + decimal(width).len() as int;
    let e2: int = e1 + 1 + decimal(height).len();
    let e3: int = e2 + 1 + decimal(max_value).len();
    &&& magic().is_prefix_of(s)
    &&& e3 < s.len()
    &&& number_at(s, 3, width, e1)
    &&& s[e1] == SPACE
    &&& number_at(s, e1 + 1, height, e2)
    &&& s[e2] == NEWLINE
    &&& number_at(s, e2 + 1, max_value, e3)
    &&& s[e3] == NEWLINE
}

/// A sequence begins with a header exactly when its fields stand where the header
/// puts them.
pub proof fn lemma_header_layout(s: Seq<u8>, width: nat, height: nat, max_value: nat)
    ensures
        starts_with_header(s, width, height, max_value) <==> header_fields(
            s,
            width,
            height,
            max_value,
        ),
{
    let dw = decimal(width);
    let dh = decimal(height);
    let dm = decimal(max_value);
    let hb = header_bytes(width, height, max_value);
    let e1: int = 3 + dw.len() as int;
    let e2: int = e1 + 1 + dh.len();
    let e3: int = e2 + 1 + dm.len();
    lemma_decimal_is_decimal(width);
    lemma_decimal_is_decimal(height);
    lemma_decimal_is_decimal(max_value);
    assert(hb.len() == e3 + 1);
    assert(hb.subrange(0, 3) =~= magic());
    assert(hb.subrange(3, e1) =~= dw);
    assert(hb[e1] == SPACE);
    assert(hb.subrange(e1 + 1, e2) =~= dh);
    assert(hb[e2] == NEWLINE);
    assert(hb.subrange(e2 + 1, e3) =~= dm);
    assert(hb[e3] == NEWLINE);
    if starts_with_header(s, width, height, max_value) {
        let p = s.subrange(0, hb.len() as int);
        assert(p == hb);
        assert(s.subrange(0, 3) =~= p.subrange(0, 3));
        assert(s.subrange(3, e1) =~= p.subrange(3, e1));
        assert(s[e1] == p[e1]);
        assert(s.subrange(e1 + 1, e2) =~= p.subrange(e1 + 1, e2));
        assert(s[e2] == p[e2]);
        assert(s.subrange(e2 + 1, e3) =~= p.subrange(e2 + 1, e3));
        assert(s[e3] == p[e3]);
        assert(header_fields(s, width, height, max_value));
    }
    if header_fields(s, width, height, max_value) {
        assert forall|i: int| 0 <= i < hb.len() implies s[i] == hb[i] by {
            if i < 3 {
                assert(s.subrange(0, 3)[i] == s[i]);
            } else if i < e1 {
                assert(s.subrange(3, e1)[i - 3] == s[i]);
            } else if e1 < i < e2 {
                assert(s.subrange(e1 + 1, e2)[i - e1 - 1] == s[i]);
            } else if e2 < i < e3 {
                assert(s.subrange(e2 + 1, e3)[i - e2 - 1] == s[i]);
            }
        }
        assert(hb =~= s.subrange(0, hb.len() as int));
    }
}

/// A sequence begins with at most one header.
pub proof fn lemma_header_unique(
    s: Seq<u8>,
    w1: nat,
    h1: nat,
    m1: nat,
    w2: nat,
    h2: nat,
    m2: nat,
)
    requires
        starts_with_header(s, w1, h1, m1),
        starts_with_header(s, w2, h2, m2),
    ensures
        w1 == w2,
        h1 == h2,
        m1 == m2,
{
    lemma_header_layout(s, w1, h1, m1);
    lemma_header_layout(s, w2, h2, m2);
    let a1: int = 3 + decimal(w1).len() as int;
    let b1: int = 3 + decimal(w2).len() as int;
    lemma_number_unique(s, 3, w1, a1, w2, b1);
    let a2: int = a1 + 1 + decimal(h1).len();
    let b2: int = b1 + 1 + decimal(h2).len();
    lemma_number_unique(s, a1 + 1, h1, a2, h2, b2);
    let a3: int = a2 + 1 + decimal(m1).len();
    let b3: int = b2 + 1 + decimal(m2).len();
    lemma_number_unique(s, a2 + 1, m1, a3, m2, b3);
}

/// The header that a sequence begins with is the one that `header_of` finds.
pub proof fn lemma_header_found(s: Seq<u8>, width: nat, height: nat, max_value: nat)
    requires
        starts_with_header(s, width, height, max_value),
    ensures
        header_of(s) == Some((width, height, max_value)),
{
    let t = choose|w: nat, h: nat, m: nat| starts_with_header(s, w, h, m);
    lemma_header_unique(s, width, height, max_value, t.0, t.1, t.2);
}

/// Reading a header back gives the width, the height and the largest value that
/// were written, whatever follows the header.
pub proof fn lemma_header_round_trip(width: nat, height: nat, max_value: nat, rest: Seq<u8>)
    ensures
        header_of(header_bytes(width, height, max_value) + rest) == Some(
            (width, height, max_value),
        ),
        header_of(header_bytes(width, height, max_value)) == Some((width, height, max_value)),
{
    let hb = header_bytes(width, height, max_value);
    assert((hb + rest).subrange(0, hb.len() as int) =~= hb);
    lemma_header_found(hb + rest, width, height, max_value);
    assert(hb.subrange(0, hb.len() as int) =~= hb);
    lemma_header_found(hb, width, height, max_value);
}

/// The header as it is read field by field: each number is looked for where the one
/// before it and its separator end.
spec fn header_by_fields(s: Seq<u8>) -> Option<Header> {
    if !magic().is_prefix_of(s) {
        None
    } else {
        match in_words(number_from(s, 3)) {
            None => None,
            Some((width, e1)) => if e1 >= s.len() || s[e1 as int] != SPACE {
                None
            } else {
                match in_words(number_from(s, e1 + 1)) {
                    None => None,
                    Some((height, e2)) => if e2 >= s.len() || s[e2 as int] != NEWLINE {
                        None
                    } else {
                        match in_words(number_from(s, e2 + 1)) {
                            None => None,
                            Some((max_value, e3)) => if e3 >= s.len() || s[e3 as int] != NEWLINE {
                                None
                            } else {
                                Some(Header { width, height, max_value })
                            },
                        }
                    },
                }
            },
        }
    }
}

/// The number that `number_from` finds is written where it says.
proof fn lemma_number_found(s: Seq<u8>, start: int)
    ensures
        number_from(s, start) matches Some((value, end)) ==> number_at(s, start, value, end)
            && end == start + decimal(value).len(),
{
    if number_from(s, start) is Some {
        let t = choose|v: nat, e: int| number_at(s, start, v, e);
        assert(s.subrange(start, t.1).len() == decimal(t.0).len());
    }
}

/// Reading field by field finds the header that the sequence begins with.
proof fn lemma_header_by_fields(s: Seq<u8>)
    requires
        s.len() <= usize::MAX,
    ensures
        header_by_fields(s) == header_in_words(header_of(s)),
{
    match header_by_fields(s) {
        Some(hd) => {
            let w: nat = hd.width as nat;
            let h: nat = hd.height as nat;
            let m: nat = hd.max_value as nat;
            lemma_number_found(s, 3);
            let e1: int = 3 + decimal(w).len() as int;
            lemma_number_found(s, e1 + 1);
            let e2: int = e1 + 1 + decimal(h).len();
            lemma_number_found(s, e2 + 1);
            assert(header_fields(s, w, h, m));
            lemma_header_layout(s, w, h, m);
            lemma_header_found(s, w, h, m);
        },
        None => {
            if header_in_words(header_of(s)) is Some {
                let t = choose|w: nat, h: nat, m: nat| starts_with_header(s, w, h, m);
                lemma_header_layout(s, t.0, t.1, t.2);
                let e1: int = 3 + decimal(t.0).len() as int;
                let e2: int = e1 + 1 + decimal(t.1).len();
                let e3: int = e2 + 1 + decimal(t.2).len();
                lemma_number_from(s, 3, t.0, e1);
                lemma_number_from(s, e1 + 1, t.1, e2);
                lemma_number_from(s, e2 + 1, t.2, e3);
                assert(false);
            }
        },
    }
}

/// Reads the header that `bytes` begins with. There is none where the bytes do not
/// begin with the magic line and three numbers in the header's layout, and none
/// where one of the numbers is more than `usize::MAX`.
pub fn parse_header(bytes: &[u8]) -> (r: Option<Header>)
    ensures
        r == header_in_words(header_of(bytes@)),
{
    let ghost s = bytes@;
    let len: usize = bytes.len();
    proof {
        lemma_header_by_fields(s);
    }
    if len < 3 || bytes[0] != LETTER_P || bytes[1] != DIGIT_THREE || bytes[2] != NEWLINE {
        proof {
            if magic().is_prefix_of(s) {
                assert(s.subrange(0, 3)[0] == s[0]);
                assert(s.subrange(0, 3)[1] == s[1]);
                assert(s.subrange(0, 3)[2] == s[2]);
            }
        }
        return None;
    }
    assert(magic() =~= s.subrange(0, 3));
    let (width, e1): (usize, usize) = match parse_decimal(bytes, 3) {
        Some(t) => t,
        None => {
            return None;
        },
    };
    if e1 >= len || bytes[e1] != SPACE {
        return None;
    }
    let (height, e2): (usize, usize) = match parse_decimal(bytes, e1 + 1) {
        Some(t) => t,
        None => {
            return None;
        },
    };
    if e2 >= len || bytes[e2] != NEWLINE {
        return None;
    }
    let (max_value, e3): (usize, usize) = match parse_decimal(bytes, e2 + 1) {
        Some(t) => t,
        None => {
            return None;
        },
    };
    if e3 >= len || bytes[e3] != NEWLINE {
        return None;
    }
    Some(Header { width, height, max_value })
}

} // verus!
