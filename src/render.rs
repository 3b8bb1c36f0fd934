//! RGBA pixels and drawing into a buffer of pixel rows.

use vstd::prelude::*;

verus! {

/// An RGBA pixel.
#[derive(Clone, Copy, Debug, PartialEq, Eq, Structural)]
pub struct Pixel {
    pub r: u8,
    pub g: u8,
    pub b: u8,
    pub a: u8,
}

/// The 32-bit colour word `0xAARRGGBB` of a pixel.
pub open spec fn word_of(p: Pixel) -> u32 {
    (p.a as int * 0x1000000 + p.r as int * 0x10000 + p.g as int * 0x100 + p.b as int) as u32
}

/// The words of a run of pixels, in order.
pub open spec fn row_words(row: Seq<Pixel>) -> Seq<u32> {
    row.map_values(|p: Pixel| word_of(p))
}

/// The words of a buffer, row after row.
pub open spec fn buffer_words(rows: Seq<Vec<Pixel>>) -> Seq<u32>
    decreases rows.len(),
{
    if rows.len() == 0 {
        Seq::empty()
    } else {
        buffer_words(rows.drop_last()) + row_words(rows.last()@)
    }
}

/// The opaque black used to clear a buffer.
pub open spec fn black() -> Pixel {
    Pixel { r: 0, g: 0, b: 0, a: 255 }
}

impl Pixel {
    /// Creates a pixel from its four channels.
    pub fn new(r: u8, g: u8, b: u8, a: u8) -> (p: Self)
        ensures
            p == (Pixel { r, g, b, a }),
    {
        Self { r, g, b, a }
    }

    /// The pixel as a 32-bit colour word in `0xAARRGGBB` layout.
    pub fn to_u32(self) -> (w: u32)
        ensures
            w == word_of(self),
    {
        let a = self.a as u32;
        let r = self.r as u32;
        let g = self.g as u32;
        let b = self.b as u32;
        let w = (a << 24) | (r << 16) | (g << 8) | b;
        assert(((a << 24) | (r << 16) | (g << 8) | b) == a * 0x1000000 + r * 0x10000 + g * 0x100 + b
            && a * 0x1000000 + r * 0x10000 + g * 0x100 + b <= 0xffffffff) by (bit_vector)
            requires
                a < 256,
                r < 256,
                g < 256,
                b < 256,
        ;
        w
    }
}

/// Fills every pixel of the buffer with opaque black; the shape is kept.
pub fn clear_buffer(buffer: &mut Vec<Vec<Pixel>>)
    ensures
        final(buffer)@.len() == old(buffer)@.len(),
        forall|j: int| #![auto] 0 <= j < final(buffer)@.len() ==> final(buffer)@[j]@.len() == old(buffer)@[j]@.len(),
        forall|j: int, i: int| #![auto] 0 <= j < final(buffer)@.len() && 0 <= i < final(buffer)@[j]@.len()
            ==> final(buffer)@[j]@[i] == black(),
{
    let n = buffer.len();
    let mut j: usize = 0;
    while j < n
        invariant
            n == buffer@.len(),
            0 <= j <= n,
            buffer@.len() == old(buffer)@.len(),
            forall|k: int| #![auto] 0 <= k < n ==> buffer@[k]@.len() == old(buffer)@[k]@.len(),
            forall|k: int, i: int| #![auto] 0 <= k < j && 0 <= i < buffer@[k]@.len() ==> buffer@[k]@[i] == black(),
        decreases n - j,
    {
        let m = buffer[j].len();
        let mut i: usize = 0;
        while i < m
            invariant
                n == buffer@.len(),
                0 <= j < n,
                0 <= i <= m,
                m == buffer@[j as int]@.len(),
                buffer@.len() == old(buffer)@.len(),
                forall|k: int| #![auto] 0 <= k < n ==> buffer@[k]@.len() == old(buffer)@[k]@.len(),
                forall|k: int, l: int| #![auto] 0 <= k < j && 0 <= l < buffer@[k]@.len() ==> buffer@[k]@[l] == black(),
                forall|l: int| #![auto] 0 <= l < i ==> buffer@[j as int]@[l] == black(),
            decreases m - i,
        {
            buffer[j][i] = Pixel::new(0, 0, 0, 255);
            i += 1;
        }
        j += 1;
    }
}

/// Sets the pixel at column `x` of row `y` to `color`; a position outside the
/// buffer leaves it untouched.
pub fn draw_pixel(buffer: &mut Vec<Vec<Pixel>>, x: usize, y: usize, color: Pixel)
    ensures
        final(buffer)@.len() == old(buffer)@.len(),
        forall|j: int| #![auto] 0 <= j < final(buffer)@.len() ==> final(buffer)@[j]@.len() == old(buffer)@[j]@.len(),
        forall|j: int, i: int| #![auto] 0 <= j < final(buffer)@.len() && 0 <= i < final(buffer)@[j]@.len()
            ==> final(buffer)@[j]@[i] == (if j == y && i == x { color } else { old(buffer)@[j]@[i] }),
{
    if y < buffer.len() && x < buffer[y].len() {
        buffer[y][x] = color;
    }
}

/// Fills the rectangle of columns `x .. x + square_width` and rows
/// `y .. y + square_height` with `color`, clipped to the buffer.
pub fn draw_square(
    buffer: &mut Vec<Vec<Pixel>>,
    x: usize,
    y: usize,
    square_width: usize,
    square_height: usize,
    color: Pixel,
)
    requires
        square_height == 0 || x + square_width <= usize::MAX,
        y + square_height <= usize::MAX,
    ensures
        final(buffer)@.len() == old(buffer)@.len(),
        forall|j: int| #![auto] 0 <= j < final(buffer)@.len() ==> final(buffer)@[j]@.len() == old(buffer)@[j]@.len(),
        forall|j: int, i: int| #![auto] 0 <= j < final(buffer)@.len() && 0 <= i < final(buffer)@[j]@.len()
            ==> final(buffer)@[j]@[i] == (if y <= j < y + square_height && x <= i < x + square_width {
                color
            } else {
                old(buffer)@[j]@[i]
            }),
{
    let mut j: usize = y;
    while j < y + square_height
        invariant
            y <= j <= y + square_height,
            square_height == 0 || x + square_width <= usize::MAX,
            y + square_height <= usize::MAX,
            buffer@.len() == old(buffer)@.len(),
            forall|k: int| #![auto] 0 <= k < buffer@.len() ==> buffer@[k]@.len() == old(buffer)@[k]@.len(),
            forall|k: int, l: int| #![auto] 0 <= k < buffer@.len() && 0 <= l < buffer@[k]@.len()
                ==> buffer@[k]@[l] == (if y <= k < j && x <= l < x + square_width {
                    color
                } else {
                    old(buffer)@[k]@[l]
                }),
        decreases y + square_height - j,
    {
        let mut i: usize = x;
        while i < x + square_width
            invariant
                y <= j < y + square_height,
                x <= i <= x + square_width,
                x + square_width <= usize::MAX,
                buffer@.len() == old(buffer)@.len(),
                forall|k: int| #![auto] 0 <= k < buffer@.len() ==> buffer@[k]@.len() == old(buffer)@[k]@.len(),
                forall|k: int, l: int| #![auto] 0 <= k < buffer@.len() && 0 <= l < buffer@[k]@.len()
                    ==> buffer@[k]@[l] == (if (y <= k < j && x <= l < x + square_width) || (k == j && x <= l < i) {
                        color
                    } else {
                        old(buffer)@[k]@[l]
                    }),
            decreases x + square_width - i,
        {
            if j < buffer.len() && i < buffer[j].len() {
                buffer[j][i] = color;
            }
            i += 1;
        }
        j += 1;
    }
}

/// Flattens the buffer, row after row, into `0xAARRGGBB` words.
pub fn buffer_to_u32(buffer: &Vec<Vec<Pixel>>) -> (flat: Vec<u32>)
    ensures
        flat@ == buffer_words(buffer@),
{
    let mut flat: Vec<u32> = Vec::new();
    let mut j: usize = 0;
    while j < buffer.len()
        invariant
            0 <= j <= buffer@.len(),
            flat@ == buffer_words(buffer@.take(j as int)),
        decreases buffer@.len() - j,
    {
        let row = &buffer[j];
        let mut i: usize = 0;
        while i < row.len()
            invariant
                0 <= j < buffer@.len(),
                row == buffer@[j as int],
                0 <= i <= row@.len(),
                flat@ == buffer_words(buffer@.take(j as int)) + row_words(row@.take(i as int)),
            decreases row@.len() - i,
        {
            flat.push(row[i].to_u32());
            assert(row@.take(i + 1) == row@.take(i as int).push(row@[i as int]));
            i += 1;
        }
        assert(row@.take(i as int) == row@);
        assert(buffer@.take(j + 1).drop_last() == buffer@.take(j as int));
        j += 1;
    }
    assert(buffer@.take(j as int) == buffer@);
    flat
}

/// Writes the buffer's `0xAARRGGBB` words, row after row, into `out`, whose
/// length is the buffer's pixel count.
pub fn buffer_to_u32_in_place(buffer: &Vec<Vec<Pixel>>, out: &mut [u32])
    requires
        old(out)@.len() == buffer_words(buffer@).len(),
    ensures
        final(out)@ == buffer_words(buffer@),
{
    let ghost total = buffer_words(buffer@);
    let mut k: usize = 0;
    let mut j: usize = 0;
    while j < buffer.len()
        invariant
            0 <= j <= buffer@.len(),
            out@.len() == total.len(),
            total == buffer_words(buffer@),
            k == buffer_words(buffer@.take(j as int)).len(),
            k <= out@.len(),
            out@.subrange(0, k as int) == buffer_words(buffer@.take(j as int)),
        decreases buffer@.len() - j,
    {
        let row = &buffer[j];
        proof { lemma_words_prefix(buffer@, j as int + 1); }
        assert(buffer@.take(j + 1).drop_last() == buffer@.take(j as int));
        let mut i: usize = 0;
        while i < row.len()
            invariant
                0 <= j < buffer@.len(),
                row == buffer@[j as int],
                0 <= i <= row@.len(),
                out@.len() == total.len(),
                total == buffer_words(buffer@),
                buffer_words(buffer@.take(j + 1)).len() <= total.len(),
                buffer_words(buffer@.take(j + 1)) == buffer_words(buffer@.take(j as int)) + row_words(row@),
                k == buffer_words(buffer@.take(j as int)).len() + i,
                out@.subrange(0, k as int) == buffer_words(buffer@.take(j as int)) + row_words(row@.take(i as int)),
            decreases row@.len() - i,
        {
            let w = row[i].to_u32();
            let ghost prev = out@;
            out[k] = w;
            assert(out@.subrange(0, k as int) == prev.subrange(0, k as int));
            assert(out@.subrange(0, k + 1) == out@.subrange(0, k as int).push(w));
            assert(row@.take(i + 1) == row@.take(i as int).push(row@[i as int]));
            assert(row_words(row@.take(i + 1)) == row_words(row@.take(i as int)).push(w));
            i += 1;
            k += 1;
        }
        assert(row@.take(i as int) == row@);
        j += 1;
    }
    assert(buffer@.take(j as int) == buffer@);
    assert(out@.subrange(0, k as int) == out@);
}

/// The words of a leading run of rows are a prefix of the buffer's words.
proof fn lemma_words_prefix(rows: Seq<Vec<Pixel>>, n: int)
    requires
        0 <= n <= rows.len(),
    ensures
        buffer_words(rows.take(n)).len() <= buffer_words(rows).len(),
    decreases rows.len(),
{
    if n < rows.len() {
        assert(rows.drop_last().take(n) == rows.take(n));
        lemma_words_prefix(rows.drop_last(), n);
    } else {
        assert(rows.take(n) == rows);
    }
}

} // verus!
