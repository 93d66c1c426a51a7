//! 24-bit bitmap files: their headers as bytes, and filters on pixels.

use vstd::prelude::*;
use crate::helpers::{
    bytes16, bytes32, bytes32_signed, le16, le32, le32_signed, lemma_bytes16_of_le16, lemma_bytes32_of_le32, push_i32,
    push_u16, push_u32, read_i32, read_u16, read_u32,
};

verus! {

/// A bitmap file's header size in bytes.
pub const BMP_HEADER_SIZE: usize = 14;

/// A bitmap file's info header size in bytes.
pub const BMP_INFO_HEADER_SIZE: usize = 40;

/// An RGB color.
#[derive(Clone, Copy, Debug, PartialEq, Eq, Structural)]
pub struct Color(pub u8, pub u8, pub u8);

impl Color {
    /// The color's bytes, first component first.
    pub fn to_be_bytes(&self) -> (r: [u8; 3])
        ensures
            r@ == seq![self.0, self.1, self.2],
    {
        let r = [self.0, self.1, self.2];
        assert(r@ =~= seq![self.0, self.1, self.2]);
        r
    }

    /// A color from its bytes, first component first.
    pub fn from_be_bytes(bytes: [u8; 3]) -> (r: Self)
        ensures
            r == Color(bytes@[0], bytes@[1], bytes@[2]),
    {
        Color(bytes[0], bytes[1], bytes[2])
    }

    /// The color's bytes, last component first.
    pub fn to_le_bytes(&self) -> (r: [u8; 3])
        ensures
            r@ == seq![self.2, self.1, self.0],
    {
        let r = [self.2, self.1, self.0];
        assert(r@ =~= seq![self.2, self.1, self.0]);
        r
    }

    /// A color from its bytes, last component first.
    pub fn from_le_bytes(bytes: [u8; 3]) -> (r: Self)
        ensures
            r == Color(bytes@[2], bytes@[1], bytes@[0]),
    {
        Color(bytes[2], bytes[1], bytes[0])
    }
}

/// The available types of image filters.
#[derive(Clone, Copy, Debug, PartialEq, Eq, Structural)]
pub enum ImageFilter {
    GrayScale,
    Sepia,
    Reflection,
    Blur,
    Edges,
}

/// A bitmap's file header.
pub struct BMPFileHeader {
    pub bf_type: u16,
    pub bf_size: u32,
    pub bf_reserved1: u16,
    pub bf_reserved2: u16,
    pub bf_off_bits: u32,
}

/// The bytes of a file header.
pub open spec fn file_header_bytes(h: BMPFileHeader) -> Seq<u8> {
    bytes16(h.bf_type) + bytes32(h.bf_size) + bytes16(h.bf_reserved1) + bytes16(h.bf_reserved2) + bytes32(h.bf_off_bits)
}

impl BMPFileHeader {
    /// Reads a bitmap file header from the first 14 bytes of a buffer.
    pub fn new(bytes: &[u8]) -> (r: Self)
        requires
            bytes@.len() >= BMP_HEADER_SIZE,
        ensures
            r.bf_type == le16(bytes@, 0),
            r.bf_size == le32(bytes@, 2),
            r.bf_reserved1 == le16(bytes@, 6),
            r.bf_reserved2 == le16(bytes@, 8),
            r.bf_off_bits == le32(bytes@, 10),
    {
        BMPFileHeader {
            bf_type: read_u16(bytes, 0),
            bf_size: read_u32(bytes, 2),
            bf_reserved1: read_u16(bytes, 6),
            bf_reserved2: read_u16(bytes, 8),
            bf_off_bits: read_u32(bytes, 10),
        }
    }

    /// Writes the header as 14 bytes, each field lowest byte first.
    pub fn to_bytes(&self) -> (r: Vec<u8>)
        ensures
            r@ == file_header_bytes(*self),
            r@.len() == BMP_HEADER_SIZE,
    {
        let mut bytes: Vec<u8> = Vec::new();
        push_u16(&mut bytes, self.bf_type);
        push_u32(&mut bytes, self.bf_size);
        push_u16(&mut bytes, self.bf_reserved1);
        push_u16(&mut bytes, self.bf_reserved2);
        push_u32(&mut bytes, self.bf_off_bits);
        assert(bytes@ =~= file_header_bytes(*self));
        bytes
    }
}

/// Writing a file header read from bytes gives back those bytes.
pub proof fn lemma_file_header_round_trip(bytes: Seq<u8>, h: BMPFileHeader)
    requires
        bytes.len() >= BMP_HEADER_SIZE,
        h.bf_type == le16(bytes, 0),
        h.bf_size == le32(bytes, 2),
        h.bf_reserved1 == le16(bytes, 6),
        h.bf_reserved2 == le16(bytes, 8),
        h.bf_off_bits == le32(bytes, 10),
    ensures
        file_header_bytes(h) == bytes.take(14),
{
    lemma_bytes16_of_le16(bytes, 0);
    lemma_bytes32_of_le32(bytes, 2);
    lemma_bytes16_of_le16(bytes, 6);
    lemma_bytes16_of_le16(bytes, 8);
    lemma_bytes32_of_le32(bytes, 10);
    assert(file_header_bytes(h) =~= bytes.take(14));
}

/// A bitmap's file info header.
pub struct BMPInfoHeader {
    pub bi_size: u32,
    pub bi_width: i32,
    pub bi_height: i32,
    pub bi_planes: u16,
    pub bi_bit_count: u16,
    pub bi_compression: u32,
    pub bi_image_size: u32,
    pub bi_resolution_x: i32,
    pub bi_resolution_y: i32,
    pub bi_colors: u32,
    pub bi_colors_important: u32,
}

/// The bytes of an info header.
pub open spec fn info_header_bytes(h: BMPInfoHeader) -> Seq<u8> {
    bytes32(h.bi_size) + bytes32_signed(h.bi_width) + bytes32_signed(h.bi_height) + bytes16(h.bi_planes) + bytes16(
        h.bi_bit_count,
    ) + bytes32(h.bi_compression) + bytes32(h.bi_image_size) + bytes32_signed(h.bi_resolution_x) + bytes32_signed(
        h.bi_resolution_y,
    ) + bytes32(h.bi_colors) + bytes32(h.bi_colors_important)
}

impl BMPInfoHeader {
    /// Reads a bitmap info header from the first 40 bytes of a buffer.
    pub fn new(bytes: &[u8]) -> (r: Self)
        requires
            bytes@.len() >= BMP_INFO_HEADER_SIZE,
        ensures
            r.bi_size == le32(bytes@, 0),
            r.bi_width == le32_signed(bytes@, 4),
            r.bi_height == le32_signed(bytes@, 8),
            r.bi_planes == le16(bytes@, 12),
            r.bi_bit_count == le16(bytes@, 14),
            r.bi_compression == le32(bytes@, 16),
            r.bi_image_size == le32(bytes@, 20),
            r.bi_resolution_x == le32_signed(bytes@, 24),
            r.bi_resolution_y == le32_signed(bytes@, 28),
            r.bi_colors == le32(bytes@, 32),
            r.bi_colors_important == le32(bytes@, 36),
    {
        BMPInfoHeader {
            bi_size: read_u32(bytes, 0),
            bi_width: read_i32(bytes, 4),
            bi_height: read_i32(bytes, 8),
            bi_planes: read_u16(bytes, 12),
            bi_bit_count: read_u16(bytes, 14),
            bi_compression: read_u32(bytes, 16),
            bi_image_size: read_u32(bytes, 20),
            bi_resolution_x: read_i32(bytes, 24),
            bi_resolution_y: read_i32(bytes, 28),
            bi_colors: read_u32(bytes, 32),
            bi_colors_important: read_u32(bytes, 36),
        }
    }

    /// Writes the header as 40 bytes, each field lowest byte first.
    pub fn to_bytes(&self) -> (r: Vec<u8>)
        ensures
            r@ == info_header_bytes(*self),
            r@.len() == BMP_INFO_HEADER_SIZE,
    {
        let mut bytes: Vec<u8> = Vec::new();
        push_u32(&mut bytes, self.bi_size);
        push_i32(&mut bytes, self.bi_width);
        push_i32(&mut bytes, self.bi_height);
        push_u16(&mut bytes, self.bi_planes);
        push_u16(&mut bytes, self.bi_bit_count);
        push_u32(&mut bytes, self.bi_compression);
        push_u32(&mut bytes, self.bi_image_size);
        push_i32(&mut bytes, self.bi_resolution_x);
        push_i32(&mut bytes, self.bi_resolution_y);
        push_u32(&mut bytes, self.bi_colors);
        push_u32(&mut bytes, self.bi_colors_important);
        assert(bytes@ =~= info_header_bytes(*self));
        bytes
    }
}

/// The text after the last `.` of a file name (the whole name when it has none).
pub open spec fn extension(name: Seq<char>) -> Seq<char>
    decreases name.len(),
{
    if name.len() == 0 {
        Seq::empty()
    } else if name.last() == '.' {
        Seq::empty()
    } else {
        extension(name.drop_last()).push(name.last())
    }
}

/// The text after the last `.` of a file name.
pub fn file_extension(name: &str) -> (r: Vec<char>)
    ensures
        r@ == extension(name@),
{
    let chars = crate::text::chars_of(name);
    let mut ext: Vec<char> = Vec::new();
    let mut i: usize = 0;
    while i < chars.len()
        invariant
            chars@ == name@,
            i <= chars@.len(),
            ext@ == extension(chars@.take(i as int)),
        decreases chars@.len() - i,
    {
        assert(chars@.take(i + 1).drop_last() =~= chars@.take(i as int));
        if chars[i] == '.' {
            ext = Vec::new();
        } else {
            ext.push(chars[i]);
        }
        i = i + 1;
    }
    assert(chars@.take(i as int) =~= chars@);
    ext
}

/// Checks if the given file name ends in `.bmp` (or is just `bmp`).
pub fn is_bmp_filename(filename: &str) -> (r: bool)
    ensures
        r == (extension(filename@) == seq!['b', 'm', 'p']),
{
    let ext = file_extension(filename);
    let r = ext.len() == 3 && ext[0] == 'b' && ext[1] == 'm' && ext[2] == 'p';
    if r {
        assert(ext@ =~= seq!['b', 'm', 'p']);
    }
    r
}

/// The indices within `diff` of `idx`, clipped to `start..=end`, as the
/// first and last index.
pub fn adjacent_range(idx: usize, diff: usize, start: usize, end: usize) -> (r: (usize, usize))
    requires
        start <= idx <= end,
        end + diff <= usize::MAX,
    ensures
        r.0 == if idx - start < diff { start as int } else { idx - diff },
        r.1 == if end - idx < diff { end as int } else { idx + diff },
{
    let lo = if idx - start < diff { start } else { idx - diff };
    let hi = if end - idx < diff { end } else { idx + diff };
    (lo, hi)
}

/// The mean of a pixel's three components.
pub open spec fn gray_of(c: Color) -> u8 {
    ((c.0 as int + c.1 as int + c.2 as int) / 3) as u8
}

/// Each pixel replaced by the gray of the mean of its components.
pub fn gray_scale(image: &Vec<Vec<Color>>) -> (r: Vec<Vec<Color>>)
    ensures
        r@.len() == image@.len(),
        forall|i: int| 0 <= i < image@.len() ==> (#[trigger] r@[i])@.len() == image@[i]@.len(),
        forall|i: int, j: int|
            0 <= i < image@.len() && 0 <= j < image@[i]@.len() ==> #[trigger] r@[i]@[j] == Color(
                gray_of(image@[i]@[j]),
                gray_of(image@[i]@[j]),
                gray_of(image@[i]@[j]),
            ),
{
    let mut out: Vec<Vec<Color>> = Vec::new();
    let mut i: usize = 0;
    while i < image.len()
        invariant
            i <= image@.len(),
            out@.len() == i,
            forall|x: int| 0 <= x < i ==> (#[trigger] out@[x])@.len() == image@[x]@.len(),
            forall|x: int, y: int|
                0 <= x < i && 0 <= y < image@[x]@.len() ==> #[trigger] out@[x]@[y] == Color(
                    gray_of(image@[x]@[y]),
                    gray_of(image@[x]@[y]),
                    gray_of(image@[x]@[y]),
                ),
        decreases image@.len() - i,
    {
        let row = &image[i];
        let mut new_row: Vec<Color> = Vec::new();
        let mut j: usize = 0;
        while j < row.len()
            invariant
                j <= row@.len(),
                new_row@.len() == j,
                forall|y: int| 0 <= y < j ==> #[trigger] new_row@[y] == Color(gray_of(row@[y]), gray_of(row@[y]), gray_of(row@[y])),
            decreases row@.len() - j,
        {
            let p = row[j];
            let gray = ((p.0 as u32 + p.1 as u32 + p.2 as u32) / 3) as u8;
            new_row.push(Color(gray, gray, gray));
            j = j + 1;
        }
        out.push(new_row);
        i = i + 1;
    }
    out
}

/// Each row mirrored left to right.
pub fn reflection(image: &Vec<Vec<Color>>) -> (r: Vec<Vec<Color>>)
    ensures
        r@.len() == image@.len(),
        forall|i: int| 0 <= i < image@.len() ==> (#[trigger] r@[i])@ == image@[i]@.reverse(),
{
    let mut out: Vec<Vec<Color>> = Vec::new();
    let mut i: usize = 0;
    while i < image.len()
        invariant
            i <= image@.len(),
            out@.len() == i,
            forall|x: int| 0 <= x < i ==> (#[trigger] out@[x])@ == image@[x]@.reverse(),
        decreases image@.len() - i,
    {
        let row = &image[i];
        let n = row.len();
        let mut new_row: Vec<Color> = Vec::new();
        let mut j: usize = 0;
        while j < n
            invariant
                n == row@.len(),
                j <= n,
                new_row@.len() == j,
                forall|y: int| 0 <= y < j ==> #[trigger] new_row@[y] == row@[n - y - 1],
            decreases n - j,
        {
            new_row.push(row[n - j - 1]);
            j = j + 1;
        }
        assert(new_row@ =~= row@.reverse());
        out.push(new_row);
        i = i + 1;
    }
    out
}


/// Component `ch` (0, 1 or 2) of a color.
pub open spec fn component(c: Color, ch: int) -> int {
    if ch == 0 {
        c.0 as int
    } else if ch == 1 {
        c.1 as int
    } else {
        c.2 as int
    }
}

/// The sum of component `ch` over columns `x0` up to, not including, `x1` of a row.
pub open spec fn row_sum(row: Seq<Color>, x0: int, x1: int, ch: int) -> int
    decreases x1 - x0,
{
    if x1 <= x0 {
        0
    } else {
        row_sum(row, x0, x1 - 1, ch) + component(row[x1 - 1], ch)
    }
}

/// The sum of component `ch` over rows `y0` up to, not including, `y1` and
/// columns `x0` up to, not including, `x1`.
pub open spec fn box_sum(image: Seq<Seq<Color>>, y0: int, y1: int, x0: int, x1: int, ch: int) -> int
    decreases y1 - y0,
{
    if y1 <= y0 {
        0
    } else {
        box_sum(image, y0, y1 - 1, x0, x1, ch) + row_sum(image[y1 - 1], x0, x1, ch)
    }
}

/// The rows of an image.
pub open spec fn pixels(image: Seq<Vec<Color>>) -> Seq<Seq<Color>> {
    Seq::new(image.len(), |i: int| image[i]@)
}

/// Every row has `width` pixels.
pub open spec fn rectangular(image: Seq<Vec<Color>>, width: nat) -> bool {
    forall|i: int| 0 <= i < image.len() ==> (#[trigger] image[i])@.len() == width
}

/// The blurred value of component `ch` at `(i, j)`: the mean, rounded down,
/// over the pixels at most `BLUR_RADIUS` rows and columns away.
pub open spec fn blurred(image: Seq<Seq<Color>>, h: int, w: int, i: int, j: int, ch: int) -> int {
    let y0 = if i < BLUR_RADIUS { 0 } else { i - BLUR_RADIUS };
    let y1 = if h - 1 - i < BLUR_RADIUS { h - 1 } else { i + BLUR_RADIUS };
    let x0 = if j < BLUR_RADIUS { 0 } else { j - BLUR_RADIUS };
    let x1 = if w - 1 - j < BLUR_RADIUS { w - 1 } else { j + BLUR_RADIUS };
    box_sum(image, y0, y1 + 1, x0, x1 + 1, ch) / ((y1 + 1 - y0) * (x1 + 1 - x0))
}

/// How far the blur reaches, in rows and in columns.
pub const BLUR_RADIUS: usize = 3;

proof fn lemma_row_sum_bound(row: Seq<Color>, x0: int, x1: int, ch: int)
    ensures
        0 <= row_sum(row, x0, x1, ch) <= 255 * (if x1 > x0 { x1 - x0 } else { 0 }),
    decreases x1 - x0,
{
    if x1 > x0 {
        lemma_row_sum_bound(row, x0, x1 - 1, ch);
    }
}

proof fn lemma_box_sum_bound(image: Seq<Seq<Color>>, y0: int, y1: int, x0: int, x1: int, ch: int)
    requires
        x0 <= x1,
    ensures
        0 <= box_sum(image, y0, y1, x0, x1, ch) <= 255 * (x1 - x0) * (if y1 > y0 { y1 - y0 } else { 0 }),
    decreases y1 - y0,
{
    if y1 > y0 {
        lemma_box_sum_bound(image, y0, y1 - 1, x0, x1, ch);
        lemma_row_sum_bound(image[y1 - 1], x0, x1, ch);
        assert(255 * (x1 - x0) * (y1 - 1 - y0) + 255 * (x1 - x0) == 255 * (x1 - x0) * (y1 - y0)) by (nonlinear_arith);
    }
}

/// The sum of one component over a box of a rectangular image.
fn sum_box(image: &Vec<Vec<Color>>, width: usize, y0: usize, y1: usize, x0: usize, x1: usize, ch: u8) -> (r: u32)
    requires
        rectangular(image@, width as nat),
        y0 <= y1 < image@.len(),
        x0 <= x1 < width,
        y1 - y0 <= 2 * BLUR_RADIUS,
        x1 - x0 <= 2 * BLUR_RADIUS,
        ch < 3,
    ensures
        r == box_sum(pixels(image@), y0 as int, y1 + 1, x0 as int, x1 + 1, ch as int),
{
    let ghost img = pixels(image@);
    let hlen = image.len();
    let mut total: u32 = 0;
    let mut y: usize = y0;
    while y <= y1
        invariant
            img == pixels(image@),
            hlen == image@.len(),
            rectangular(image@, width as nat),
            y0 <= y <= y1 + 1,
            y1 < image@.len(),
            x0 <= x1 < width,
            y1 - y0 <= 2 * BLUR_RADIUS,
            x1 - x0 <= 2 * BLUR_RADIUS,
            ch < 3,
            total == box_sum(img, y0 as int, y as int, x0 as int, x1 + 1, ch as int),
        decreases y1 + 1 - y,
    {
        let row = &image[y];
        assert(row@.len() == width);
        assert(img[y as int] == row@);
        let mut x: usize = x0;
        let mut part: u32 = 0;
        while x <= x1
            invariant
                row@.len() == width,
                x0 <= x <= x1 + 1,
                x1 < width,
                x1 - x0 <= 2 * BLUR_RADIUS,
                ch < 3,
                part == row_sum(row@, x0 as int, x as int, ch as int),
            decreases x1 + 1 - x,
        {
            proof {
                lemma_row_sum_bound(row@, x0 as int, x as int, ch as int);
            }
            let p = row[x];
            let v: u32 = if ch == 0 { p.0 as u32 } else if ch == 1 { p.1 as u32 } else { p.2 as u32 };
            part = part + v;
            x = x + 1;
        }
        proof {
            lemma_box_sum_bound(img, y0 as int, y as int, x0 as int, x1 + 1, ch as int);
            assert(255 * (x1 + 1 - x0) * (y - y0) <= 255 * 7 * 7) by (nonlinear_arith)
                requires
                    x1 + 1 - x0 <= 7,
                    y - y0 <= 7,
                    y >= y0,
                    x1 >= x0,
            ;
            lemma_row_sum_bound(row@, x0 as int, x1 + 1, ch as int);
        }
        total = total + part;
        y = y + 1;
    }
    total
}

/// Each pixel replaced by the mean, per component and rounded down, of the
/// pixels at most `BLUR_RADIUS` rows and columns away from it.
pub fn blur(image: &Vec<Vec<Color>>, width: usize) -> (r: Vec<Vec<Color>>)
    requires
        rectangular(image@, width as nat),
        width + BLUR_RADIUS <= usize::MAX,
        image@.len() + BLUR_RADIUS <= usize::MAX,
    ensures
        r@.len() == image@.len(),
        rectangular(r@, width as nat),
        forall|i: int, j: int|
            0 <= i < image@.len() && 0 <= j < width ==> component(#[trigger] r@[i]@[j], 0) == blurred(
                pixels(image@),
                image@.len() as int,
                width as int,
                i,
                j,
                0,
            ) && component(r@[i]@[j], 1) == blurred(pixels(image@), image@.len() as int, width as int, i, j, 1)
                && component(r@[i]@[j], 2) == blurred(pixels(image@), image@.len() as int, width as int, i, j, 2),
{
    let h = image.len();
    let ghost img = pixels(image@);
    let mut out: Vec<Vec<Color>> = Vec::new();
    let mut i: usize = 0;
    while i < h
        invariant
            img == pixels(image@),
            h == image@.len(),
            rectangular(image@, width as nat),
            width + BLUR_RADIUS <= usize::MAX,
            h + BLUR_RADIUS <= usize::MAX,
            i <= h,
            out@.len() == i,
            rectangular(out@, width as nat),
            forall|y: int, j: int|
                0 <= y < i && 0 <= j < width ==> component(#[trigger] out@[y]@[j], 0) == blurred(img, h as int, width as int, y, j, 0)
                    && component(out@[y]@[j], 1) == blurred(img, h as int, width as int, y, j, 1)
                    && component(out@[y]@[j], 2) == blurred(img, h as int, width as int, y, j, 2),
        decreases h - i,
    {
        let (y0, y1) = adjacent_range(i, BLUR_RADIUS, 0, h - 1);
        let mut row: Vec<Color> = Vec::new();
        let mut j: usize = 0;
        while j < width
            invariant
                img == pixels(image@),
                h == image@.len(),
                rectangular(image@, width as nat),
                width + BLUR_RADIUS <= usize::MAX,
                i < h,
                y0 == (if i < BLUR_RADIUS { 0 } else { i - BLUR_RADIUS }),
                y1 == (if h - 1 - i < BLUR_RADIUS { h - 1 } else { i + BLUR_RADIUS }),
                j <= width,
                row@.len() == j,
                forall|x: int|
                    0 <= x < j ==> component(#[trigger] row@[x], 0) == blurred(img, h as int, width as int, i as int, x, 0)
                        && component(row@[x], 1) == blurred(img, h as int, width as int, i as int, x, 1)
                        && component(row@[x], 2) == blurred(img, h as int, width as int, i as int, x, 2),
            decreases width - j,
        {
            let (x0, x1) = adjacent_range(j, BLUR_RADIUS, 0, width - 1);
            assert(y1 - y0 <= 2 * BLUR_RADIUS);
            assert(x1 - x0 <= 2 * BLUR_RADIUS);
            let rows = (y1 - y0 + 1) as u32;
            let cols = (x1 - x0 + 1) as u32;
            assert(rows * cols <= 49) by (nonlinear_arith)
                requires
                    rows <= 7,
                    cols <= 7,
            ;
            let n = rows * cols;
            let r = sum_box(image, width, y0, y1, x0, x1, 0);
            let g = sum_box(image, width, y0, y1, x0, x1, 1);
            let b = sum_box(image, width, y0, y1, x0, x1, 2);
            proof {
                lemma_box_sum_bound(img, y0 as int, y1 + 1, x0 as int, x1 + 1, 0);
                lemma_box_sum_bound(img, y0 as int, y1 + 1, x0 as int, x1 + 1, 1);
                lemma_box_sum_bound(img, y0 as int, y1 + 1, x0 as int, x1 + 1, 2);
                assert(n as int == (y1 + 1 - y0) * (x1 + 1 - x0));
                assert(n >= 1) by (nonlinear_arith)
                    requires
                        n as int == (y1 + 1 - y0) * (x1 + 1 - x0),
                        y1 >= y0,
                        x1 >= x0,
                ;
                assert(r / n <= 255 && g / n <= 255 && b / n <= 255) by (nonlinear_arith)
                    requires
                        n >= 1,
                        r <= 255 * (x1 + 1 - x0) * (y1 + 1 - y0),
                        g <= 255 * (x1 + 1 - x0) * (y1 + 1 - y0),
                        b <= 255 * (x1 + 1 - x0) * (y1 + 1 - y0),
                        n as int == (y1 + 1 - y0) * (x1 + 1 - x0),
                ;
            }
            row.push(Color((r / n) as u8, (g / n) as u8, (b / n) as u8));
            j = j + 1;
        }
        out.push(row);
        i = i + 1;
    }
    out
}


/// Bytes of padding after a row of `width` pixels, so rows fill whole words.
pub open spec fn row_padding(width: int) -> int {
    (4 - (3 * width) % 4) % 4
}

/// Bytes taken by a row of `width` pixels with its padding.
pub open spec fn row_stride(width: int) -> int {
    3 * width + row_padding(width)
}

/// The headers describe a 24-bit uncompressed bitmap with its pixels right
/// after the headers, and a width that is not negative.
pub open spec fn supported(f: BMPFileHeader, i: BMPInfoHeader) -> bool {
    f.bf_type == 0x4d42 && f.bf_off_bits == 54 && i.bi_size == 40 && i.bi_bit_count == 24 && i.bi_compression == 0
        && i.bi_width >= 0
}

/// Number of pixel rows a height gives.
pub open spec fn row_count(height: i32) -> int {
    if height < 0 {
        -(height as int)
    } else {
        height as int
    }
}

/// A 24-bit bitmap: its headers and its pixel rows.
pub struct BMPFile24 {
    /// The file's header.
    pub bf_header: BMPFileHeader,
    /// The file's info header.
    pub bi_header: BMPInfoHeader,
    /// The pixel rows, as stored.
    pub data: Vec<Vec<Color>>,
}

impl BMPFile24 {
    /// Checks if the given file name ends in `.bmp` (or is just `bmp`).
    pub fn is_bmp_filename(filename: &str) -> (r: bool)
        ensures
            r == (extension(filename@) == seq!['b', 'm', 'p']),
    {
        is_bmp_filename(filename)
    }

    /// Reads a bitmap from the bytes of its file: `None` when the headers do
    /// not describe a supported bitmap or the bytes are too few for its rows.
    pub fn from_bytes(bytes: &Vec<u8>) -> (r: Option<BMPFile24>)
        ensures
            r matches Some(f) ==> {
                &&& supported(f.bf_header, f.bi_header)
                &&& f.data@.len() == row_count(f.bi_header.bi_height)
                &&& forall|i: int, j: int|
                    0 <= i < f.data@.len() && 0 <= j < f.bi_header.bi_width ==> (#[trigger] f.data@[i]@[j]) == Color(
                        bytes@[54 + i * row_stride(f.bi_header.bi_width as int) + 3 * j + 2],
                        bytes@[54 + i * row_stride(f.bi_header.bi_width as int) + 3 * j + 1],
                        bytes@[54 + i * row_stride(f.bi_header.bi_width as int) + 3 * j],
                    )
                &&& rectangular(f.data@, f.bi_header.bi_width as nat)
            },
            bytes@.len() < 54 ==> r is None,
    {
        if bytes.len() < 54 {
            return None;
        }
        let b = bytes.as_slice();
        let bf_header = BMPFileHeader::new(b);
        let rest = slice_from(b, 14);
        let bi_header = BMPInfoHeader::new(rest.as_slice());
        if bf_header.bf_type != 0x4d42 || bf_header.bf_off_bits != 54 || bi_header.bi_size != 40
            || bi_header.bi_bit_count != 24 || bi_header.bi_compression != 0 || bi_header.bi_width < 0 {
            return None;
        }
        let width = bi_header.bi_width as u64;
        let height: u64 = if bi_header.bi_height < 0 {
            (-(bi_header.bi_height as i64)) as u64
        } else {
            bi_header.bi_height as u64
        };
        let pad = (4 - (3 * width) % 4) % 4;
        let stride = 3 * width + pad;
        assert(height * stride <= 2147483648 * 6442450947) by (nonlinear_arith)
            requires
                height <= 2147483648,
                stride <= 6442450947,
        ;
        let needed = 54 + height * stride;
        let blen = bytes.len();
        if needed > blen as u64 {
            return None;
        }
        if height == 0 {
            return Some(BMPFile24 { bf_header, bi_header, data: Vec::new() });
        }
        assert(stride <= height * stride) by (nonlinear_arith)
            requires
                height >= 1,
        ;
        let w = width as usize;
        let h = height as usize;
        let st = stride as usize;
        assert(h as int * st == height * stride);
        let ghost ws = bi_header.bi_width as int;
        let mut data: Vec<Vec<Color>> = Vec::new();
        let mut i: usize = 0;
        let mut row_start: usize = 54;
        while i < h
            invariant
                w as int == ws,
                st as int == row_stride(ws),
                3 * w <= st,
                blen == bytes@.len(),
                h as int * st + 54 <= blen,
                i <= h,
                row_start == 54 + i * st,
                data@.len() == i,
                rectangular(data@, w as nat),
                forall|y: int, j: int|
                    0 <= y < i && 0 <= j < w ==> (#[trigger] data@[y]@[j]) == Color(
                        bytes@[54 + y * row_stride(ws) + 3 * j + 2],
                        bytes@[54 + y * row_stride(ws) + 3 * j + 1],
                        bytes@[54 + y * row_stride(ws) + 3 * j],
                    ),
            decreases h - i,
        {
            assert((i + 1) * st <= h * st) by (nonlinear_arith)
                requires
                    i + 1 <= h,
            ;
            assert((i + 1) * st == i * st + st) by (nonlinear_arith);
            let mut row: Vec<Color> = Vec::new();
            let mut j: usize = 0;
            while j < w
                invariant
                    w as int == ws,
                    st as int == row_stride(ws),
                    3 * w <= st,
                    blen == bytes@.len(),
                    row_start + st <= blen,
                    row_start == 54 + i * st,
                    j <= w,
                    row@.len() == j,
                    forall|x: int| 0 <= x < j ==> (#[trigger] row@[x]) == Color(
                        bytes@[row_start + 3 * x + 2],
                        bytes@[row_start + 3 * x + 1],
                        bytes@[row_start + 3 * x],
                    ),
                decreases w - j,
            {
                let o = row_start + 3 * j;
                row.push(Color::from_le_bytes([bytes[o], bytes[o + 1], bytes[o + 2]]));
                j = j + 1;
            }
            data.push(row);
            row_start = row_start + st;
            i = i + 1;
        }
        Some(BMPFile24 { bf_header, bi_header, data })
    }

    /// The bytes of a bitmap file with these headers and the given rows:
    /// the headers, then each row's pixels (last component first) and zeros
    /// up to the row's padding.
    pub fn to_bytes(&self, pixels: &Vec<Vec<Color>>) -> (r: Vec<u8>)
        requires
            self.bi_header.bi_width >= 0,
            3 * self.bi_header.bi_width + 3 <= usize::MAX,
            rectangular(pixels@, self.bi_header.bi_width as nat),
            54 + pixels@.len() * row_stride(self.bi_header.bi_width as int) <= usize::MAX,
        ensures
            r@.len() == 54 + pixels@.len() * row_stride(self.bi_header.bi_width as int),
            r@.take(14) == file_header_bytes(self.bf_header),
            r@.subrange(14, 54) == info_header_bytes(self.bi_header),
            forall|i: int, j: int|
                0 <= i < pixels@.len() && 0 <= j < self.bi_header.bi_width ==> {
                    let o = 54 + i * row_stride(self.bi_header.bi_width as int) + 3 * j;
                    &&& r@[o] == (#[trigger] pixels@[i]@[j]).2
                    &&& r@[o + 1] == pixels@[i]@[j].1
                    &&& r@[o + 2] == pixels@[i]@[j].0
                },
    {
        let mut out = self.bf_header.to_bytes();
        let info = self.bi_header.to_bytes();
        let ghost fh = out@;
        let mut k: usize = 0;
        while k < info.len()
            invariant
                fh.len() == 14,
                info@.len() == 40,
                k <= 40,
                out@ == fh + info@.take(k as int),
            decreases 40 - k,
        {
            out.push(info[k]);
            assert(out@ =~= fh + info@.take(k + 1));
            k = k + 1;
        }
        assert(info@.take(40) =~= info@);
        let w = self.bi_header.bi_width as usize;
        let ghost ws = self.bi_header.bi_width as int;
        let pad = (4 - (3 * w) % 4) % 4;
        let st = 3 * w + pad;
        let mut i: usize = 0;
        while i < pixels.len()
            invariant
                w as int == ws,
                st as int == row_stride(ws),
                st == 3 * w + pad,
                rectangular(pixels@, w as nat),
                54 + pixels@.len() * st <= usize::MAX,
                i <= pixels@.len(),
                out@.len() == 54 + i * st,
                out@.take(14) == fh,
                out@.subrange(14, 54) == info@,
                forall|y: int, j: int|
                    0 <= y < i && 0 <= j < w ==> {
                        let o = 54 + y * st + 3 * j;
                        &&& out@[o] == (#[trigger] pixels@[y]@[j]).2
                        &&& out@[o + 1] == pixels@[y]@[j].1
                        &&& out@[o + 2] == pixels@[y]@[j].0
                    },
            decreases pixels@.len() - i,
        {
            assert((i + 1) * st <= pixels@.len() * st) by (nonlinear_arith)
                requires
                    i + 1 <= pixels@.len(),
            ;
            assert((i + 1) * st == i * st + st) by (nonlinear_arith);
            let row = &pixels[i];
            let ghost before = out@;
            let mut j: usize = 0;
            while j < w
                invariant
                    w == row@.len(),
                    j <= w,
                    out@.len() == before.len() + 3 * j,
                    out@.take(before.len() as int) == before,
                    forall|x: int| 0 <= x < j ==> {
                        let o = before.len() + 3 * x;
                        &&& out@[o] == (#[trigger] row@[x]).2
                        &&& out@[o + 1] == row@[x].1
                        &&& out@[o + 2] == row@[x].0
                    },
                    before.len() + 3 * w <= usize::MAX,
                decreases w - j,
            {
                let c = row[j];
                let ghost o0 = out@;
                out.push(c.2);
                out.push(c.1);
                out.push(c.0);
                assert(out@.take(before.len() as int) =~= o0.take(before.len() as int));
                assert forall|x: int| 0 <= x < j + 1 implies {
                    let o = before.len() + 3 * x;
                    &&& out@[o] == (#[trigger] row@[x]).2
                    &&& out@[o + 1] == row@[x].1
                    &&& out@[o + 2] == row@[x].0
                } by {
                    if x < j {
                        assert(out@[before.len() + 3 * x] == o0[before.len() + 3 * x]);
                        assert(out@[before.len() + 3 * x + 1] == o0[before.len() + 3 * x + 1]);
                        assert(out@[before.len() + 3 * x + 2] == o0[before.len() + 3 * x + 2]);
                    }
                }
                j = j + 1;
            }
            let mut t: usize = 0;
            let ghost mid = out@;
            while t < pad
                invariant
                    t <= pad,
                    out@.len() == mid.len() + t,
                    out@.take(mid.len() as int) == mid,
                    mid.len() + pad <= usize::MAX,
                decreases pad - t,
            {
                out.push(0);
                assert(out@.take(mid.len() as int) =~= mid);
                t = t + 1;
            }
            proof {
                assert(out@.take(14) =~= before.take(14));
                assert(out@.subrange(14, 54) =~= before.subrange(14, 54));
                assert forall|y: int, jj: int| 0 <= y < i + 1 && 0 <= jj < w implies {
                    let o = 54 + y * st + 3 * jj;
                    &&& out@[o] == (#[trigger] pixels@[y]@[jj]).2
                    &&& out@[o + 1] == pixels@[y]@[jj].1
                    &&& out@[o + 2] == pixels@[y]@[jj].0
                } by {
                    let o = 54 + y * st + 3 * jj;
                    if y < i {
                        assert(y * st + 3 * jj + 2 < i * st) by (nonlinear_arith)
                            requires
                                y < i,
                                jj < w,
                                st >= 3 * w,
                        ;
                        assert(out@[o] == before[o]);
                        assert(out@[o + 1] == before[o + 1]);
                        assert(out@[o + 2] == before[o + 2]);
                    } else {
                        assert(out@[o] == mid[o]);
                        assert(out@[o + 1] == mid[o + 1]);
                        assert(out@[o + 2] == mid[o + 2]);
                    }
                }
            }
            i = i + 1;
        }
        out
    }
}

/// The bytes from `start` on.
fn slice_from(b: &[u8], start: usize) -> (r: Vec<u8>)
    requires
        start <= b@.len(),
    ensures
        r@ == b@.skip(start as int),
{
    let mut out: Vec<u8> = Vec::new();
    let mut i: usize = start;
    while i < b.len()
        invariant
            start <= i <= b@.len(),
            out@ == b@.subrange(start as int, i as int),
        decreases b@.len() - i,
    {
        out.push(b[i]);
        assert(out@ =~= b@.subrange(start as int, i + 1));
        i = i + 1;
    }
    out
}

} // verus!
