//! An off-screen frame buffer of RGB565 pixels, two bytes per pixel, high byte first.

use vstd::prelude::*;

use crate::region::Region;

verus! {

/// The byte of an RGB565 value that goes first on the bus.
pub open spec fn color_high(color: u16) -> u8 {
    (color / 256) as u8
}

/// The byte of an RGB565 value that goes second on the bus.
pub open spec fn color_low(color: u16) -> u8 {
    (color % 256) as u8
}

/// The RGB565 value whose big-endian bytes are `high` and `low`.
pub open spec fn color_from_bytes(high: u8, low: u8) -> u16 {
    (high as int * 256 + low as int) as u16
}

pub(crate) fn high_byte(color: u16) -> (b: u8)
    ensures
        b == color_high(color),
{
    assert((color >> 8u16) as u8 == (color / 256) as u8) by (bit_vector);
    (color >> 8u16) as u8
}

pub(crate) fn low_byte(color: u16) -> (b: u8)
    ensures
        b == color_low(color),
{
    assert(color as u8 == (color % 256) as u8) by (bit_vector);
    color as u8
}

/// Splitting a colour into its two bytes and joining them again gives the colour back.
pub proof fn lemma_color_bytes_roundtrip(color: u16)
    ensures
        color_from_bytes(color_high(color), color_low(color)) == color,
        color_high(color_from_bytes(color_high(color), color_low(color))) == color_high(color),
{
}

/// Joining two bytes and splitting the colour again gives the bytes back.
pub proof fn lemma_bytes_color_roundtrip(high: u8, low: u8)
    ensures
        color_high(color_from_bytes(high, low)) == high,
        color_low(color_from_bytes(high, low)) == low,
{
}

/// A pixel as the drawing code hands it over: a position and an RGB565 colour.
#[derive(Copy, Clone, Debug, PartialEq, Eq, Structural)]
pub struct PixelData {
    pub x: i32,
    pub y: i32,
    pub color: u16,
}

/// What a frame buffer holds: its bytes and the size it was given.
pub struct FrameView {
    pub bytes: Seq<u8>,
    pub width: u32,
    pub height: u32,
}

/// A structure representing a frame buffer.
pub struct FrameBuffer<'a> {
    buffer: &'a mut [u8],
    width: u32,
    height: u32,
}

impl<'a> View for FrameBuffer<'a> {
    type V = FrameView;

    closed spec fn view(&self) -> FrameView {
        FrameView { bytes: self.buffer@, width: self.width, height: self.height }
    }
}

/// Every pair of bytes set to the colour; an odd last byte is left as it was.
pub open spec fn filled(bytes: Seq<u8>, color: u16) -> Seq<u8> {
    Seq::new(
        bytes.len(),
        |k: int|
            if k < 2 * (bytes.len() / 2) {
                if k % 2 == 0 {
                    color_high(color)
                } else {
                    color_low(color)
                }
            } else {
                bytes[k]
            },
    )
}

/// The colour of pixel `i` of a byte buffer.
pub open spec fn pixel_at(bytes: Seq<u8>, i: int) -> u16 {
    color_from_bytes(bytes[2 * i], bytes[2 * i + 1])
}

/// Byte offset of the first pixel of row `row` of a rectangle whose top-left corner is
/// `(x, y)`, in a buffer `width` pixels wide.
pub open spec fn row_offset(y: int, x: int, width: int, row: int) -> int {
    (y + row) * width * 2 + x * 2
}

/// `b` with the bytes from `at` on replaced by `piece`.
pub open spec fn splice(b: Seq<u8>, at: int, piece: Seq<u8>) -> Seq<u8> {
    b.take(at) + piece + b.skip(at + piece.len())
}

/// The bytes of `dest` after the first `rows` rows of a `src_width`-pixel wide rectangle at
/// `(src_x, src_y)` in `src` are copied, one after the other, to `(dest_x, dest_y)`.
pub open spec fn copied_rows(
    dest: Seq<u8>,
    src: Seq<u8>,
    width: u32,
    src_x: u16,
    src_y: u16,
    src_width: u32,
    dest_x: u16,
    dest_y: u16,
    rows: nat,
) -> Seq<u8>
    decreases rows,
{
    if rows == 0 {
        dest
    } else {
        let r = rows - 1;
        let before = copied_rows(dest, src, width, src_x, src_y, src_width, dest_x, dest_y, r as nat);
        let s = row_offset(src_y as int, src_x as int, width as int, r);
        splice(
            before,
            row_offset(dest_y as int, dest_x as int, width as int, r),
            src.subrange(s, s + 2 * src_width),
        )
    }
}

/// Every row of the rectangle lies inside a buffer of `len` bytes that is `width` pixels wide.
pub open spec fn region_fits(len: int, width: u32, x: u16, y: u16, w: u32, h: u32) -> bool {
    h == 0 || (y + h - 1 <= usize::MAX && row_offset(y as int, x as int, width as int, h - 1) + 2 * w <= len)
}

/// The bytes of `dest` after each region of the list, in order, is copied from `src` to the
/// same place.
pub open spec fn restored(dest: Seq<u8>, src: Seq<u8>, width: u32, regions: Seq<Option<Region>>) -> Seq<u8>
    decreases regions.len(),
{
    if regions.len() == 0 {
        dest
    } else {
        let before = restored(dest, src, width, regions.drop_last());
        match regions.last() {
            Some(r) => copied_rows(before, src, width, r.x, r.y, r.width, r.x, r.y, r.height as nat),
            None => before,
        }
    }
}

/// The pixel lies on the `width` by `height` frame.
pub open spec fn in_frame(p: PixelData, width: u32, height: u32) -> bool {
    0 <= p.x && p.x < (width as i32) && 0 <= p.y && p.y < (height as i32)
}

/// Byte offset of a pixel that lies on the frame.
pub open spec fn pixel_offset(p: PixelData, width: u32) -> int {
    (p.y as int * width as int + p.x as int) * 2
}

/// Drawing the pixel stays inside the buffer and its offset fits the arithmetic used.
pub open spec fn pixel_writable(p: PixelData, width: u32, height: u32, len: int) -> bool {
    in_frame(p, width, height) ==> pixel_offset(p, width) + 1 < len && pixel_offset(p, width) <= u32::MAX
}

/// The bytes after one pixel is drawn; a pixel off the frame changes nothing.
pub open spec fn draw_one(bytes: Seq<u8>, width: u32, height: u32, p: PixelData) -> Seq<u8> {
    if in_frame(p, width, height) {
        let o = pixel_offset(p, width);
        bytes.update(o, color_high(p.color)).update(o + 1, color_low(p.color))
    } else {
        bytes
    }
}

/// The bytes after the pixels are drawn in order.
pub open spec fn painted(bytes: Seq<u8>, width: u32, height: u32, pixels: Seq<PixelData>) -> Seq<u8>
    decreases pixels.len(),
{
    if pixels.len() == 0 {
        bytes
    } else {
        draw_one(painted(bytes, width, height, pixels.drop_last()), width, height, pixels.last())
    }
}

/// The two bytes of pixel `i` differ between `a` and `b`.
pub open spec fn chunk_differs(a: Seq<u8>, b: Seq<u8>, i: int) -> bool {
    a[2 * i] != b[2 * i] || a[2 * i + 1] != b[2 * i + 1]
}

/// Pixel `i` of `a`, placed on a frame `width` pixels wide.
pub open spec fn diff_pixel(a: Seq<u8>, width: u32, i: int) -> PixelData {
    PixelData {
        x: ((i as u32) % width) as i32,
        y: ((i as u32) / width) as i32,
        color: color_from_bytes(a[2 * i], a[2 * i + 1]),
    }
}

/// The pixels among the first `n` of `a` that differ from `b`, in order.
pub open spec fn changed_pixels(a: Seq<u8>, b: Seq<u8>, width: u32, n: nat) -> Seq<PixelData>
    decreases n,
{
    if n == 0 {
        seq![]
    } else {
        let before = changed_pixels(a, b, width, (n - 1) as nat);
        if chunk_differs(a, b, n - 1) {
            before.push(diff_pixel(a, width, n - 1))
        } else {
            before
        }
    }
}

proof fn lemma_row_offset_monotone(y: int, x: int, width: int, r: int, last: int)
    requires
        0 <= y,
        0 <= x,
        0 <= width,
        0 <= r <= last,
    ensures
        0 <= row_offset(y, x, width, r) <= row_offset(y, x, width, last),
        0 <= (y + r) * width,
{
    assert(0 <= (y + r) * width <= (y + last) * width) by (nonlinear_arith)
        requires
            0 <= y,
            0 <= width,
            0 <= r <= last,
    ;
}

proof fn lemma_copied_rows_len(
    dest: Seq<u8>,
    src: Seq<u8>,
    width: u32,
    src_x: u16,
    src_y: u16,
    src_width: u32,
    dest_x: u16,
    dest_y: u16,
    rows: nat,
    h: u32,
)
    requires
        rows <= h,
        region_fits(dest.len() as int, width, dest_x, dest_y, src_width, h),
        region_fits(src.len() as int, width, src_x, src_y, src_width, h),
    ensures
        copied_rows(dest, src, width, src_x, src_y, src_width, dest_x, dest_y, rows).len() == dest.len(),
    decreases rows,
{
    if rows > 0 {
        let r = rows - 1;
        lemma_copied_rows_len(dest, src, width, src_x, src_y, src_width, dest_x, dest_y, r as nat, h);
        lemma_row_offset_monotone(src_y as int, src_x as int, width as int, r, h - 1);
        lemma_row_offset_monotone(dest_y as int, dest_x as int, width as int, r, h - 1);
    }
}

proof fn lemma_restored_len(dest: Seq<u8>, src: Seq<u8>, width: u32, regions: Seq<Option<Region>>)
    requires
        forall|i: int|
            0 <= i < regions.len() && (#[trigger] regions[i]) is Some ==> {
                let r = regions[i]->0;
                &&& region_fits(dest.len() as int, width, r.x, r.y, r.width, r.height)
                &&& region_fits(src.len() as int, width, r.x, r.y, r.width, r.height)
            },
    ensures
        restored(dest, src, width, regions).len() == dest.len(),
    decreases regions.len(),
{
    if regions.len() > 0 {
        let rest = regions.drop_last();
        assert forall|i: int| 0 <= i < rest.len() && (#[trigger] rest[i]) is Some implies {
            let r = rest[i]->0;
            &&& region_fits(dest.len() as int, width, r.x, r.y, r.width, r.height)
            &&& region_fits(src.len() as int, width, r.x, r.y, r.width, r.height)
        } by {
            assert(rest[i] == regions[i]);
        }
        lemma_restored_len(dest, src, width, rest);
        let before = restored(dest, src, width, rest);
        let last = regions.last();
        assert(last == regions[regions.len() - 1]);
        if let Some(r) = last {
            lemma_copied_rows_len(before, src, width, r.x, r.y, r.width, r.x, r.y, r.height as nat, r.height);
        }
    }
}

/// Whether every row of the rectangle lies inside a buffer of `len` bytes that is `width`
/// pixels wide.
pub fn rectangle_fits(len: usize, width: u32, x: u16, y: u16, w: u32, h: u32) -> (ok: bool)
    ensures
        ok == region_fits(len as int, width, x, y, w, h),
{
    if h == 0 {
        return true;
    }
    let last: u128 = y as u128 + h as u128 - 1;
    if last > usize::MAX as u128 {
        return false;
    }
    proof {
        assert(0 <= (last as int) * (width as int) <= 0x2_0000_0000 * 0xFFFF_FFFF) by (nonlinear_arith)
            requires
                0 <= last <= 0x2_0000_0000,
                0 <= width <= 0xFFFF_FFFF,
        ;
    }
    last * width as u128 * 2 + x as u128 * 2 + 2 * w as u128 <= len as u128
}

impl<'a> FrameBuffer<'a> {
    /// Creates a new frame buffer.
    ///
    /// # Arguments
    ///
    /// * `buffer` - A mutable slice representing the pixel data.
    /// * `width` - The width of the frame buffer.
    /// * `height` - The height of the frame buffer.
    pub fn new(buffer: &'a mut [u8], width: u32, height: u32) -> (fb: Self)
        ensures
            fb@.bytes == old(buffer)@,
            fb@.width == width,
            fb@.height == height,
    {
        FrameBuffer { buffer, width, height }
    }

    /// Returns a reference to the buffer.
    pub fn get_buffer(&self) -> (b: &[u8])
        ensures
            b@ == self@.bytes,
    {
        self.buffer
    }

    /// The width the frame buffer was given, in pixels.
    pub fn width(&self) -> (w: u32)
        ensures
            w == self@.width,
    {
        self.width
    }

    /// The height the frame buffer was given, in pixels.
    pub fn height(&self) -> (h: u32)
        ensures
            h == self@.height,
    {
        self.height
    }

    /// Whether `copy_region` can copy this rectangle from a source buffer of `src_len`
    /// bytes.
    pub fn can_copy_region(
        &self,
        src_len: usize,
        src_x: u16,
        src_y: u16,
        src_width: u32,
        src_height: u32,
        dest_x: u16,
        dest_y: u16,
    ) -> (ok: bool)
        ensures
            ok == (region_fits(src_len as int, self@.width, src_x, src_y, src_width, src_height)
                && region_fits(self@.bytes.len() as int, self@.width, dest_x, dest_y, src_width, src_height)),
    {
        rectangle_fits(src_len, self.width, src_x, src_y, src_width, src_height) && rectangle_fits(
            self.buffer.len(),
            self.width,
            dest_x,
            dest_y,
            src_width,
            src_height,
        )
    }

    /// Whether `copy_regions` can restore these regions from a source buffer of `src_len`
    /// bytes.
    pub fn can_copy_regions(&self, src_len: usize, regions: &[Option<Region>]) -> (ok: bool)
        ensures
            ok == forall|i: int|
                0 <= i < regions@.len() && (#[trigger] regions@[i]) is Some ==> {
                    let r = regions@[i]->0;
                    &&& region_fits(self@.bytes.len() as int, self@.width, r.x, r.y, r.width, r.height)
                    &&& region_fits(src_len as int, self@.width, r.x, r.y, r.width, r.height)
                },
    {
        let mut i: usize = 0;
        while i < regions.len()
            invariant
                i <= regions@.len(),
                forall|j: int|
                    0 <= j < i && (#[trigger] regions@[j]) is Some ==> {
                        let r = regions@[j]->0;
                        &&& region_fits(self@.bytes.len() as int, self@.width, r.x, r.y, r.width, r.height)
                        &&& region_fits(src_len as int, self@.width, r.x, r.y, r.width, r.height)
                    },
            decreases regions@.len() - i,
        {
            if let Some(r) = regions[i] {
                if !self.can_copy_region(src_len, r.x, r.y, r.width, r.height, r.x, r.y) {
                    assert(regions@[i as int] is Some);
                    return false;
                }
            }
            i = i + 1;
        }
        true
    }

    /// Clears the frame buffer with the specified RGB565 colour.
    pub fn clear(&mut self, color: u16)
        ensures
            final(self)@.bytes == filled(old(self)@.bytes, color),
            final(self)@.width == old(self)@.width,
            final(self)@.height == old(self)@.height,
    {
        let hi = high_byte(color);
        let lo = low_byte(color);
        let len = self.buffer.len();
        let n = len / 2;
        let ghost start = self.buffer@;
        let mut i: usize = 0;
        while i < n
            invariant
                i <= n,
                len == start.len(),
                n == start.len() / 2,
                hi == color_high(color),
                lo == color_low(color),
                self.buffer@.len() == start.len(),
                start == old(self)@.bytes,
                self.width == old(self)@.width,
                self.height == old(self)@.height,
                forall|k: int|
                    0 <= k < start.len() ==> #[trigger] self.buffer@[k] == if k < 2 * i {
                        if k % 2 == 0 {
                            hi
                        } else {
                            lo
                        }
                    } else {
                        start[k]
                    },
            decreases n - i,
        {
            self.buffer[2 * i] = hi;
            self.buffer[2 * i + 1] = lo;
            i = i + 1;
        }
        assert(self.buffer@ =~= filled(start, color));
    }

    /// Copies a region from another buffer into this buffer.
    ///
    /// # Arguments
    ///
    /// * `src_buffer` - The source buffer.
    /// * `src_x` - The x-coordinate of the top-left corner of the source region.
    /// * `src_y` - The y-coordinate of the top-left corner of the source region.
    /// * `src_width` - The width of the source region.
    /// * `src_height` - The height of the source region.
    /// * `dest_x` - The x-coordinate of the top-left corner of the destination region.
    /// * `dest_y` - The y-coordinate of the top-left corner of the destination region.
    pub fn copy_region(
        &mut self,
        src_buffer: &[u8],
        src_x: u16,
        src_y: u16,
        src_width: u32,
        src_height: u32,
        dest_x: u16,
        dest_y: u16,
    )
        requires
            region_fits(src_buffer@.len() as int, old(self)@.width, src_x, src_y, src_width, src_height),
            region_fits(old(self)@.bytes.len() as int, old(self)@.width, dest_x, dest_y, src_width, src_height),
        ensures
            final(self)@.bytes == copied_rows(
                old(self)@.bytes,
                src_buffer@,
                old(self)@.width,
                src_x,
                src_y,
                src_width,
                dest_x,
                dest_y,
                src_height as nat,
            ),
            final(self)@.bytes.len() == old(self)@.bytes.len(),
            final(self)@.width == old(self)@.width,
            final(self)@.height == old(self)@.height,
    {
        let ghost start = self.buffer@;
        let ghost width = self.width;
        let w = self.width as usize;
        let rows = src_height as usize;
        let src_len = src_buffer.len();
        let dest_len = self.buffer.len();
        let mut row: usize = 0;
        while row < rows
            invariant
                src_len == src_buffer@.len(),
                dest_len == start.len(),
                row <= rows,
                rows == src_height,
                w == width,
                width == self.width,
                self.width == old(self)@.width,
                self.height == old(self)@.height,
                start == old(self)@.bytes,
                region_fits(src_buffer@.len() as int, width, src_x, src_y, src_width, src_height),
                region_fits(start.len() as int, width, dest_x, dest_y, src_width, src_height),
                self.buffer@.len() == start.len(),
                self.buffer@ == copied_rows(
                    start,
                    src_buffer@,
                    width,
                    src_x,
                    src_y,
                    src_width,
                    dest_x,
                    dest_y,
                    row as nat,
                ),
            decreases rows - row,
        {
            proof {
                lemma_row_offset_monotone(src_y as int, src_x as int, w as int, row as int, rows - 1);
                lemma_row_offset_monotone(dest_y as int, dest_x as int, w as int, row as int, rows - 1);
            }
            let src_row_start = (src_y as usize + row) * w * 2 + src_x as usize * 2;
            let dest_row_start = (dest_y as usize + row) * w * 2 + dest_x as usize * 2;
            let n = src_width as usize * 2;
            let ghost before = self.buffer@;
            let mut k: usize = 0;
            while k < n
                invariant
                    k <= n,
                    self.width == width,
                    self.height == old(self)@.height,
                    src_len == src_buffer@.len(),
                    dest_len == before.len(),
                    n == 2 * src_width,
                    src_row_start + n <= src_buffer@.len(),
                    dest_row_start + n <= before.len(),
                    self.buffer@ == splice(
                        before,
                        dest_row_start as int,
                        src_buffer@.subrange(src_row_start as int, src_row_start + k),
                    ),
                    self.buffer@.len() == before.len(),
                decreases n - k,
            {
                self.buffer[dest_row_start + k] = src_buffer[src_row_start + k];
                k = k + 1;
                assert(self.buffer@ =~= splice(
                    before,
                    dest_row_start as int,
                    src_buffer@.subrange(src_row_start as int, src_row_start + k),
                ));
            }
            row = row + 1;
        }
    }

    /// Restores regions from a source buffer into the frame buffer: each region present in
    /// the list is copied from `src_buffer` to the same place here.
    pub fn copy_regions(&mut self, src_buffer: &[u8], regions: &[Option<Region>])
        requires
            forall|i: int|
                0 <= i < regions@.len() && (#[trigger] regions@[i]) is Some ==> {
                    let r = regions@[i]->0;
                    &&& region_fits(old(self)@.bytes.len() as int, old(self)@.width, r.x, r.y, r.width, r.height)
                    &&& region_fits(src_buffer@.len() as int, old(self)@.width, r.x, r.y, r.width, r.height)
                },
        ensures
            final(self)@.bytes == restored(old(self)@.bytes, src_buffer@, old(self)@.width, regions@),
            final(self)@.width == old(self)@.width,
            final(self)@.height == old(self)@.height,
    {
        let ghost start = self.buffer@;
        let ghost width = self.width;
        let mut i: usize = 0;
        while i < regions.len()
            invariant
                i <= regions@.len(),
                width == self.width,
                self.width == old(self)@.width,
                self.height == old(self)@.height,
                start == old(self)@.bytes,
                forall|j: int|
                    0 <= j < regions@.len() && (#[trigger] regions@[j]) is Some ==> {
                        let r = regions@[j]->0;
                        &&& region_fits(start.len() as int, width, r.x, r.y, r.width, r.height)
                        &&& region_fits(src_buffer@.len() as int, width, r.x, r.y, r.width, r.height)
                    },
                self.buffer@ == restored(start, src_buffer@, width, regions@.take(i as int)),
            decreases regions@.len() - i,
        {
            proof {
                let pre = regions@.take(i as int);
                assert forall|j: int| 0 <= j < pre.len() && (#[trigger] pre[j]) is Some implies {
                    let r = pre[j]->0;
                    &&& region_fits(start.len() as int, width, r.x, r.y, r.width, r.height)
                    &&& region_fits(src_buffer@.len() as int, width, r.x, r.y, r.width, r.height)
                } by {
                    assert(pre[j] == regions@[j]);
                }
                lemma_restored_len(start, src_buffer@, width, pre);
                assert(regions@.take(i + 1).drop_last() =~= pre);
                assert(regions@.take(i + 1).last() == regions@[i as int]);
            }
            match regions[i] {
                Some(region) => {
                    assert(regions@[i as int] is Some);
                    self.copy_region(
                        src_buffer,
                        region.x,
                        region.y,
                        region.width,
                        region.height,
                        region.x,
                        region.y,
                    );
                },
                None => {},
            }
            i = i + 1;
        }
        assert(regions@.take(regions@.len() as int) =~= regions@);
    }

    /// Whether `draw_pixel` can take this pixel.
    pub fn pixel_writable(&self, pixel: PixelData) -> (ok: bool)
        ensures
            ok == pixel_writable(pixel, self@.width, self@.height, self@.bytes.len() as int),
    {
        if pixel.x >= 0 && pixel.x < self.width as i32 && pixel.y >= 0 && pixel.y < self.height as i32 {
            proof {
                assert(0 <= (pixel.y as int) * (self.width as int) <= 0x7FFF_FFFF * 0xFFFF_FFFF) by (nonlinear_arith)
                    requires
                        0 <= pixel.y <= 0x7FFF_FFFF,
                        0 <= self.width <= 0xFFFF_FFFF,
                ;
            }
            let offset = (pixel.y as u64 * self.width as u64 + pixel.x as u64) * 2;
            offset + 1 < self.buffer.len() as u64 && offset <= 0xFFFF_FFFF
        } else {
            true
        }
    }

    /// Draws one pixel; a pixel off the frame is ignored.
    pub fn draw_pixel(&mut self, pixel: PixelData)
        requires
            pixel_writable(pixel, old(self)@.width, old(self)@.height, old(self)@.bytes.len() as int),
        ensures
            final(self)@.bytes == draw_one(old(self)@.bytes, old(self)@.width, old(self)@.height, pixel),
            final(self)@.width == old(self)@.width,
            final(self)@.height == old(self)@.height,
    {
        if pixel.x >= 0 && pixel.x < self.width as i32 && pixel.y >= 0 && pixel.y < self.height as i32 {
            proof {
                assert(0 <= (pixel.y as int) * (self.width as int)) by (nonlinear_arith)
                    requires
                        0 <= pixel.y,
                ;
            }
            let index = ((pixel.y as u32 * self.width + pixel.x as u32) * 2) as usize;
            let hi = high_byte(pixel.color);
            let lo = low_byte(pixel.color);
            self.buffer[index] = hi;
            self.buffer[index + 1] = lo;
        }
    }

    /// Draws the pixels in order; pixels off the frame are ignored.
    pub fn draw_iter(&mut self, pixels: &[PixelData]) -> (r: Result<(), ()>)
        requires
            forall|i: int|
                0 <= i < pixels@.len() ==> pixel_writable(
                    #[trigger] pixels@[i],
                    old(self)@.width,
                    old(self)@.height,
                    old(self)@.bytes.len() as int,
                ),
        ensures
            r is Ok,
            final(self)@.bytes == painted(old(self)@.bytes, old(self)@.width, old(self)@.height, pixels@),
            final(self)@.width == old(self)@.width,
            final(self)@.height == old(self)@.height,
    {
        let ghost start = self.buffer@;
        let mut i: usize = 0;
        while i < pixels.len()
            invariant
                i <= pixels@.len(),
                self.width == old(self)@.width,
                self.height == old(self)@.height,
                start == old(self)@.bytes,
                self.buffer@.len() == start.len(),
                forall|j: int|
                    0 <= j < pixels@.len() ==> pixel_writable(
                        #[trigger] pixels@[j],
                        self.width,
                        self.height,
                        start.len() as int,
                    ),
                self.buffer@ == painted(start, self.width, self.height, pixels@.take(i as int)),
            decreases pixels@.len() - i,
        {
            let p = pixels[i];
            self.draw_pixel(p);
            proof {
                assert(pixels@.take(i + 1).drop_last() =~= pixels@.take(i as int));
                assert(pixels@.take(i + 1).last() == p);
            }
            i = i + 1;
        }
        assert(pixels@.take(pixels@.len() as int) =~= pixels@);
        Ok(())
    }

    /// Compares this frame buffer with another one and returns the pixels of this buffer
    /// that differ, which redraw the other buffer's picture into this one's.
    pub fn diff_with(&self, other: &FrameBuffer) -> (pixels: Vec<PixelData>)
        requires
            other@.bytes.len() >= 2 * (self@.bytes.len() / 2),
            self@.width > 0 || forall|i: int|
                0 <= i < self@.bytes.len() / 2 ==> !#[trigger] chunk_differs(self@.bytes, other@.bytes, i),
        ensures
            pixels@ == changed_pixels(self@.bytes, other@.bytes, self@.width, (self@.bytes.len() / 2) as nat),
    {
        let len = self.buffer.len();
        let n = len / 2;
        let mut out: Vec<PixelData> = Vec::new();
        let mut i: usize = 0;
        while i < n
            invariant
                i <= n,
                len == self@.bytes.len(),
                n == self@.bytes.len() / 2,
                other@.bytes.len() >= 2 * n,
                self@.width > 0 || forall|j: int|
                    0 <= j < n ==> !#[trigger] chunk_differs(self@.bytes, other@.bytes, j),
                out@ == changed_pixels(self@.bytes, other@.bytes, self@.width, i as nat),
            decreases n - i,
        {
            let a0 = self.buffer[2 * i];
            let a1 = self.buffer[2 * i + 1];
            let b0 = other.buffer[2 * i];
            let b1 = other.buffer[2 * i + 1];
            if a0 != b0 || a1 != b1 {
                assert(chunk_differs(self@.bytes, other@.bytes, i as int));
                let x = (i as u32 % self.width) as i32;
                let y = (i as u32 / self.width) as i32;
                let color = (a0 as u16) * 256 + (a1 as u16);
                out.push(PixelData { x, y, color });
            }
            i = i + 1;
        }
        out
    }
}

/// Pixel `i` of a frame `width` pixels wide sits at byte offset `2 * i`, on the frame.
proof fn lemma_diff_pixel_place(a: Seq<u8>, width: u32, height: u32, i: int)
    requires
        0 <= i,
        i < width * height,
        width <= i32::MAX,
        height <= i32::MAX,
        2 * (i + 1) <= a.len(),
        a.len() <= u32::MAX,
    ensures
        in_frame(diff_pixel(a, width, i), width, height),
        pixel_offset(diff_pixel(a, width, i), width) == 2 * i,
{
    let w = width as int;
    assert(w > 0) by (nonlinear_arith)
        requires
            0 <= i < w * (height as int),
            w >= 0,
    ;
    assert((i as u32) as int == i);
    let q = i / w;
    let r = i % w;
    vstd::arithmetic::div_mod::lemma_fundamental_div_mod(i, w);
    assert(0 <= r < w);
    assert(0 <= q < height) by (nonlinear_arith)
        requires
            i == w * q + r,
            0 <= r < w,
            0 <= i < w * (height as int),
            w > 0,
    ;
    assert(((i as u32) % width) as int == r);
    assert(((i as u32) / width) as int == q);
    let p = diff_pixel(a, width, i);
    assert(p.x as int == r);
    assert(p.y as int == q);
    assert(pixel_offset(p, width) == 2 * i) by (nonlinear_arith)
        requires
            p.x as int == r,
            p.y as int == q,
            i == w * q + r,
            pixel_offset(p, width) == (p.y as int * w + p.x as int) * 2,
    ;
}

/// Drawing the changed pixels of `a` onto the first `n` pixels of `b` gives `a` there.
proof fn lemma_repaint_prefix(a: Seq<u8>, b: Seq<u8>, width: u32, height: u32, n: nat)
    requires
        a.len() == b.len(),
        a.len() == 2 * width * height,
        width <= i32::MAX,
        height <= i32::MAX,
        a.len() <= u32::MAX,
        n <= a.len() / 2,
    ensures
        forall|j: int|
            0 <= j < changed_pixels(a, b, width, n).len() ==> {
                let p = #[trigger] changed_pixels(a, b, width, n)[j];
                &&& pixel_writable(p, width, height, b.len() as int)
                &&& in_frame(p, width, height)
                &&& pixel_offset(p, width) < 2 * n
            },
        painted(b, width, height, changed_pixels(a, b, width, n)) == a.take(2 * n as int) + b.skip(2 * n as int),
    decreases n,
{
    assert(a.len() == 2 * (width * height)) by (nonlinear_arith)
        requires
            a.len() == 2 * width * height,
    ;
    if n == 0 {
        assert(b.skip(0) =~= b);
        assert(a.take(0) + b =~= b);
    } else {
        let m = (n - 1) as nat;
        lemma_repaint_prefix(a, b, width, height, m);
        let before = changed_pixels(a, b, width, m);
        let now = changed_pixels(a, b, width, n);
        let i = m as int;
        let prev = a.take(2 * i) + b.skip(2 * i);
        let next = a.take(2 * n as int) + b.skip(2 * n as int);
        if chunk_differs(a, b, i) {
            lemma_diff_pixel_place(a, width, height, i);
            let p = diff_pixel(a, width, i);
            assert(now == before.push(p));
            assert(now.drop_last() =~= before);
            lemma_bytes_color_roundtrip(a[2 * i], a[2 * i + 1]);
            assert(draw_one(prev, width, height, p) =~= next);
            assert forall|j: int| 0 <= j < now.len() implies {
                let q = #[trigger] now[j];
                &&& pixel_writable(q, width, height, b.len() as int)
                &&& in_frame(q, width, height)
                &&& pixel_offset(q, width) < 2 * n
            } by {
                if j < before.len() {
                    assert(now[j] == before[j]);
                }
            }
        } else {
            assert(now == before);
            assert(prev =~= next);
        }
    }
}

/// Drawing the pixels that `a` changes against `b` onto `b` gives `a`: the difference of two
/// frames redraws one into the other. Every such pixel can be drawn on `b`.
pub proof fn lemma_diff_redraws(a: Seq<u8>, b: Seq<u8>, width: u32, height: u32)
    requires
        a.len() == b.len(),
        a.len() == 2 * width * height,
        width <= i32::MAX,
        height <= i32::MAX,
        a.len() <= u32::MAX,
    ensures
        forall|j: int|
            0 <= j < changed_pixels(a, b, width, (a.len() / 2) as nat).len() ==> pixel_writable(
                #[trigger] changed_pixels(a, b, width, (a.len() / 2) as nat)[j],
                width,
                height,
                b.len() as int,
            ),
        painted(b, width, height, changed_pixels(a, b, width, (a.len() / 2) as nat)) == a,
{
    let n = (a.len() / 2) as nat;
    assert(a.len() == 2 * (width * height)) by (nonlinear_arith)
        requires
            a.len() == 2 * width * height,
    ;
    lemma_repaint_prefix(a, b, width, height, n);
    assert(a.take(2 * n as int) =~= a);
    assert(b.skip(2 * n as int) =~= Seq::<u8>::empty());
    assert(a.take(2 * n as int) + b.skip(2 * n as int) =~= a);
}

/// The changed pixels of a frame lie on the frame and come in row-major order: each one's
/// byte offset is greater than the one before.
pub proof fn lemma_diff_row_major(a: Seq<u8>, b: Seq<u8>, width: u32, height: u32, n: nat)
    requires
        a.len() == b.len(),
        a.len() == 2 * width * height,
        width <= i32::MAX,
        height <= i32::MAX,
        a.len() <= u32::MAX,
        n <= a.len() / 2,
    ensures
        forall|j: int|
            0 <= j < changed_pixels(a, b, width, n).len() ==> in_frame(
                #[trigger] changed_pixels(a, b, width, n)[j],
                width,
                height,
            ),
        forall|j: int, k: int|
            0 <= j < k < changed_pixels(a, b, width, n).len() ==> pixel_offset(
                #[trigger] changed_pixels(a, b, width, n)[j],
                width,
            ) < pixel_offset(#[trigger] changed_pixels(a, b, width, n)[k], width),
    decreases n,
{
    lemma_repaint_prefix(a, b, width, height, n);
    if n > 0 {
        let m = (n - 1) as nat;
        lemma_diff_row_major(a, b, width, height, m);
        lemma_repaint_prefix(a, b, width, height, m);
        let before = changed_pixels(a, b, width, m);
        let now = changed_pixels(a, b, width, n);
        if chunk_differs(a, b, m as int) {
            assert(a.len() == 2 * (width * height)) by (nonlinear_arith)
                requires
                    a.len() == 2 * width * height,
            ;
            lemma_diff_pixel_place(a, width, height, m as int);
            assert(now == before.push(diff_pixel(a, width, m as int)));
            assert forall|j: int, k: int| 0 <= j < k < now.len() implies pixel_offset(
                #[trigger] now[j],
                width,
            ) < pixel_offset(#[trigger] now[k], width) by {
                assert(now[j] == before[j]);
                if k < before.len() {
                    assert(now[k] == before[k]);
                } else {
                    assert(now[k] == diff_pixel(a, width, m as int));
                }
            }
        } else {
            assert(now == before);
        }
    }
}

/// A frame compared with itself has no changed pixels.
pub proof fn lemma_diff_with_itself(a: Seq<u8>, width: u32, n: nat)
    ensures
        changed_pixels(a, a, width, n) == Seq::<PixelData>::empty(),
    decreases n,
{
    if n > 0 {
        lemma_diff_with_itself(a, width, (n - 1) as nat);
    }
}

/// After clearing, every whole pixel has the colour.
pub proof fn lemma_cleared_pixels(bytes: Seq<u8>, color: u16)
    ensures
        filled(bytes, color).len() == bytes.len(),
        forall|i: int| 0 <= i < bytes.len() / 2 ==> #[trigger] pixel_at(filled(bytes, color), i) == color,
{
    lemma_color_bytes_roundtrip(color);
    assert forall|i: int| 0 <= i < bytes.len() / 2 implies #[trigger] pixel_at(filled(bytes, color), i) == color by {
        assert(filled(bytes, color)[2 * i] == color_high(color));
        assert(filled(bytes, color)[2 * i + 1] == color_low(color));
    }
}

/// Reading back a pixel just drawn on the frame gives its colour; no other byte changes.
pub proof fn lemma_draw_read_back(bytes: Seq<u8>, width: u32, height: u32, p: PixelData)
    requires
        in_frame(p, width, height),
        pixel_writable(p, width, height, bytes.len() as int),
    ensures
        pixel_at(draw_one(bytes, width, height, p), pixel_offset(p, width) / 2) == p.color,
        forall|k: int|
            0 <= k < bytes.len() && k != pixel_offset(p, width) && k != pixel_offset(p, width) + 1
                ==> #[trigger] draw_one(bytes, width, height, p)[k] == bytes[k],
{
    lemma_color_bytes_roundtrip(p.color);
    let o = pixel_offset(p, width);
    assert(o % 2 == 0) by (nonlinear_arith)
        requires
            o == (p.y as int * width as int + p.x as int) * 2,
    ;
    assert(2 * (o / 2) == o);
}


/// Byte `k` lies in one of the first `rows` rows of a `w`-pixel wide rectangle at `(x, y)`.
pub open spec fn in_rows(width: u32, x: u16, y: u16, w: u32, rows: int, k: int) -> bool {
    exists|r: int|
        0 <= r < rows && row_offset(y as int, x as int, width as int, r) <= k < #[trigger] row_offset(
            y as int,
            x as int,
            width as int,
            r,
        ) + 2 * w
}

proof fn lemma_rows_apart(y: int, x: int, width: int, r: int, m: int)
    requires
        0 <= y,
        0 <= x,
        0 <= width,
        0 <= r < m,
    ensures
        row_offset(y, x, width, r) + 2 * width <= row_offset(y, x, width, m),
{
    assert((y + r) * width + width <= (y + m) * width) by (nonlinear_arith)
        requires
            0 <= width,
            0 <= r < m,
    ;
}

proof fn lemma_copied_in_place(
    dest: Seq<u8>,
    src: Seq<u8>,
    width: u32,
    x: u16,
    y: u16,
    w: u32,
    rows: nat,
    h: u32,
)
    requires
        rows <= h,
        region_fits(dest.len() as int, width, x, y, w, h),
        region_fits(src.len() as int, width, x, y, w, h),
    ensures
        copied_rows(dest, src, width, x, y, w, x, y, rows).len() == dest.len(),
        forall|k: int|
            0 <= k < dest.len() ==> #[trigger] copied_rows(dest, src, width, x, y, w, x, y, rows)[k] == if in_rows(
                width,
                x,
                y,
                w,
                rows as int,
                k,
            ) {
                src[k]
            } else {
                dest[k]
            },
    decreases rows,
{
    lemma_copied_rows_len(dest, src, width, x, y, w, x, y, rows, h);
    if rows > 0 {
        let m = (rows - 1) as nat;
        lemma_copied_in_place(dest, src, width, x, y, w, m, h);
        lemma_copied_rows_len(dest, src, width, x, y, w, x, y, m, h);
        lemma_row_offset_monotone(y as int, x as int, width as int, m as int, h - 1);
        let prev = copied_rows(dest, src, width, x, y, w, x, y, m);
        let now = copied_rows(dest, src, width, x, y, w, x, y, rows);
        let o = row_offset(y as int, x as int, width as int, m as int);
        assert forall|k: int| 0 <= k < dest.len() implies #[trigger] now[k] == if in_rows(
            width,
            x,
            y,
            w,
            rows as int,
            k,
        ) {
            src[k]
        } else {
            dest[k]
        } by {
            if o <= k < o + 2 * w {
                assert(in_rows(width, x, y, w, rows as int, k)) by {
                    assert(row_offset(y as int, x as int, width as int, m as int) == o);
                }
            } else {
                assert(now[k] == prev[k]);
                if in_rows(width, x, y, w, rows as int, k) {
                    let r = choose|r: int|
                        0 <= r < rows && row_offset(y as int, x as int, width as int, r) <= k
                            < #[trigger] row_offset(y as int, x as int, width as int, r) + 2 * w;
                    assert(r != m);
                    assert(in_rows(width, x, y, w, m as int, k));
                }
                if in_rows(width, x, y, w, m as int, k) {
                    let r = choose|r: int|
                        0 <= r < m && row_offset(y as int, x as int, width as int, r) <= k
                            < #[trigger] row_offset(y as int, x as int, width as int, r) + 2 * w;
                    assert(in_rows(width, x, y, w, rows as int, k));
                }
            }
        }
    }
}

/// Byte `k` lies in a row of one of the regions of the list.
pub open spec fn in_regions(regions: Seq<Option<Region>>, width: u32, k: int) -> bool {
    exists|i: int|
        0 <= i < regions.len() && (#[trigger] regions[i]) is Some && in_rows(
            width,
            regions[i]->0.x,
            regions[i]->0.y,
            regions[i]->0.width,
            regions[i]->0.height as int,
            k,
        )
}

/// Restoring regions from a source frame gives every byte inside a region the source's byte
/// and leaves every other byte as it was, whatever the order and overlap of the regions.
pub proof fn lemma_restored_bytes(dest: Seq<u8>, src: Seq<u8>, width: u32, regions: Seq<Option<Region>>)
    requires
        forall|i: int|
            0 <= i < regions.len() && (#[trigger] regions[i]) is Some ==> {
                let r = regions[i]->0;
                &&& region_fits(dest.len() as int, width, r.x, r.y, r.width, r.height)
                &&& region_fits(src.len() as int, width, r.x, r.y, r.width, r.height)
            },
    ensures
        restored(dest, src, width, regions).len() == dest.len(),
        forall|k: int|
            0 <= k < dest.len() ==> #[trigger] restored(dest, src, width, regions)[k] == if in_regions(
                regions,
                width,
                k,
            ) {
                src[k]
            } else {
                dest[k]
            },
    decreases regions.len(),
{
    lemma_restored_len(dest, src, width, regions);
    if regions.len() > 0 {
        let rest = regions.drop_last();
        assert forall|i: int| 0 <= i < rest.len() && (#[trigger] rest[i]) is Some implies {
            let r = rest[i]->0;
            &&& region_fits(dest.len() as int, width, r.x, r.y, r.width, r.height)
            &&& region_fits(src.len() as int, width, r.x, r.y, r.width, r.height)
        } by {
            assert(rest[i] == regions[i]);
        }
        lemma_restored_bytes(dest, src, width, rest);
        lemma_restored_len(dest, src, width, rest);
        let before = restored(dest, src, width, rest);
        let now = restored(dest, src, width, regions);
        let last_i = regions.len() - 1;
        assert(regions.last() == regions[last_i]);
        assert forall|k: int| 0 <= k < dest.len() implies #[trigger] now[k] == if in_regions(
            regions,
            width,
            k,
        ) {
            src[k]
        } else {
            dest[k]
        } by {
            let in_last = match regions.last() {
                Some(r) => in_rows(width, r.x, r.y, r.width, r.height as int, k),
                None => false,
            };
            if let Some(r) = regions.last() {
                lemma_copied_in_place(before, src, width, r.x, r.y, r.width, r.height as nat, r.height);
                assert(now[k] == if in_last { src[k] } else { before[k] });
            } else {
                assert(now[k] == before[k]);
            }
            if in_last {
                assert(in_regions(regions, width, k));
            } else {
                if in_regions(rest, width, k) {
                    let i = choose|i: int|
                        0 <= i < rest.len() && (#[trigger] rest[i]) is Some && in_rows(
                            width,
                            rest[i]->0.x,
                            rest[i]->0.y,
                            rest[i]->0.width,
                            rest[i]->0.height as int,
                            k,
                        );
                    assert(rest[i] == regions[i]);
                    assert(in_regions(regions, width, k));
                }
                if in_regions(regions, width, k) {
                    let i = choose|i: int|
                        0 <= i < regions.len() && (#[trigger] regions[i]) is Some && in_rows(
                            width,
                            regions[i]->0.x,
                            regions[i]->0.y,
                            regions[i]->0.width,
                            regions[i]->0.height as int,
                            k,
                        );
                    assert(i != last_i);
                    assert(rest[i] == regions[i]);
                    assert(in_regions(rest, width, k));
                }
            }
        }
    }
}

/// Copying a rectangle whose rows are no wider than the frame puts every source row at its
/// destination row, and leaves every byte outside the destination rows as it was.
pub proof fn lemma_copied_rectangle(
    dest: Seq<u8>,
    src: Seq<u8>,
    width: u32,
    src_x: u16,
    src_y: u16,
    src_width: u32,
    src_height: u32,
    dest_x: u16,
    dest_y: u16,
)
    requires
        src_width <= width,
        region_fits(dest.len() as int, width, dest_x, dest_y, src_width, src_height),
        region_fits(src.len() as int, width, src_x, src_y, src_width, src_height),
    ensures
        ({
            let out = copied_rows(dest, src, width, src_x, src_y, src_width, dest_x, dest_y, src_height as nat);
            &&& out.len() == dest.len()
            &&& forall|r: int, k: int|
                #![trigger out[k], row_offset(dest_y as int, dest_x as int, width as int, r)]
                0 <= r < src_height && row_offset(dest_y as int, dest_x as int, width as int, r) <= k
                    < row_offset(dest_y as int, dest_x as int, width as int, r) + 2 * src_width ==> out[k]
                    == src[k - row_offset(dest_y as int, dest_x as int, width as int, r) + row_offset(
                    src_y as int,
                    src_x as int,
                    width as int,
                    r,
                )]
            &&& forall|k: int|
                0 <= k < dest.len() && !in_rows(width, dest_x, dest_y, src_width, src_height as int, k)
                    ==> #[trigger] out[k] == dest[k]
        }),
{
    lemma_copied_rectangle_rows(dest, src, width, src_x, src_y, src_width, src_height, dest_x, dest_y, src_height as nat);
}

proof fn lemma_copied_rectangle_rows(
    dest: Seq<u8>,
    src: Seq<u8>,
    width: u32,
    src_x: u16,
    src_y: u16,
    src_width: u32,
    src_height: u32,
    dest_x: u16,
    dest_y: u16,
    rows: nat,
)
    requires
        rows <= src_height,
        src_width <= width,
        region_fits(dest.len() as int, width, dest_x, dest_y, src_width, src_height),
        region_fits(src.len() as int, width, src_x, src_y, src_width, src_height),
    ensures
        ({
            let out = copied_rows(dest, src, width, src_x, src_y, src_width, dest_x, dest_y, rows);
            &&& out.len() == dest.len()
            &&& forall|r: int, k: int|
                #![trigger out[k], row_offset(dest_y as int, dest_x as int, width as int, r)]
                0 <= r < rows && row_offset(dest_y as int, dest_x as int, width as int, r) <= k
                    < row_offset(dest_y as int, dest_x as int, width as int, r) + 2 * src_width ==> out[k]
                    == src[k - row_offset(dest_y as int, dest_x as int, width as int, r) + row_offset(
                    src_y as int,
                    src_x as int,
                    width as int,
                    r,
                )]
            &&& forall|k: int|
                0 <= k < dest.len() && !in_rows(width, dest_x, dest_y, src_width, rows as int, k)
                    ==> #[trigger] out[k] == dest[k]
        }),
    decreases rows,
{
    lemma_copied_rows_len(dest, src, width, src_x, src_y, src_width, dest_x, dest_y, rows, src_height);
    if rows > 0 {
        let m = (rows - 1) as nat;
        lemma_copied_rectangle_rows(dest, src, width, src_x, src_y, src_width, src_height, dest_x, dest_y, m);
        lemma_copied_rows_len(dest, src, width, src_x, src_y, src_width, dest_x, dest_y, m, src_height);
        lemma_row_offset_monotone(src_y as int, src_x as int, width as int, m as int, src_height - 1);
        lemma_row_offset_monotone(dest_y as int, dest_x as int, width as int, m as int, src_height - 1);
        let prev = copied_rows(dest, src, width, src_x, src_y, src_width, dest_x, dest_y, m);
        let out = copied_rows(dest, src, width, src_x, src_y, src_width, dest_x, dest_y, rows);
        let od = row_offset(dest_y as int, dest_x as int, width as int, m as int);
        let os = row_offset(src_y as int, src_x as int, width as int, m as int);
        assert forall|r: int, k: int|
            #![trigger out[k], row_offset(dest_y as int, dest_x as int, width as int, r)]
            0 <= r < rows && row_offset(dest_y as int, dest_x as int, width as int, r) <= k
                < row_offset(dest_y as int, dest_x as int, width as int, r) + 2 * src_width implies out[k]
                == src[k - row_offset(dest_y as int, dest_x as int, width as int, r) + row_offset(
                src_y as int,
                src_x as int,
                width as int,
                r,
            )] by {
            let d = row_offset(dest_y as int, dest_x as int, width as int, r);
            lemma_row_offset_monotone(dest_y as int, dest_x as int, width as int, r, src_height - 1);
            lemma_row_offset_monotone(src_y as int, src_x as int, width as int, r, src_height - 1);
            if r < m {
                lemma_rows_apart(dest_y as int, dest_x as int, width as int, r, m as int);
                assert(out[k] == prev[k]);
                assert(prev[k] == src[k - d + row_offset(src_y as int, src_x as int, width as int, r)]);
            } else {
                assert(r == m);
                assert(out[k] == src[k - od + os]);
            }
        }
        assert forall|k: int|
            0 <= k < dest.len() && !in_rows(width, dest_x, dest_y, src_width, rows as int, k)
                implies #[trigger] out[k] == dest[k] by {
            if od <= k < od + 2 * src_width {
                assert(in_rows(width, dest_x, dest_y, src_width, rows as int, k)) by {
                    assert(row_offset(dest_y as int, dest_x as int, width as int, m as int) == od);
                }
            }
            assert(out[k] == prev[k]);
            if in_rows(width, dest_x, dest_y, src_width, m as int, k) {
                let r = choose|r: int|
                    0 <= r < m && row_offset(dest_y as int, dest_x as int, width as int, r) <= k
                        < #[trigger] row_offset(dest_y as int, dest_x as int, width as int, r) + 2 * src_width;
                assert(in_rows(width, dest_x, dest_y, src_width, rows as int, k));
            }
        }
    }
}

} // verus!
