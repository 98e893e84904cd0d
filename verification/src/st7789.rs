//! The ST7789 driver: its settings, the regions it remembers, and the bus transactions
//! of each of its operations.

use vstd::prelude::*;

use crate::bus::{
    be_bytes, chunked_data_ops, command_ops, cs_after, data_ops, data_writes, dc_after, ops_view,
    push_chunked_data, push_command, push_data, push_data_writes, push_op, push_word, sent_in_mode,
    transmitted, writes_fit, BusOp, Op,
};
use crate::cmd::Commands;
use crate::frame::{color_high, color_low, high_byte, low_byte, in_frame, PixelData};
use crate::region::{has_free_slot, stored_in_first_free, Block, Region, RegionExt};

verus! {

/// Scan direction: horizontal.
pub const HORIZONTAL: u16 = 0;

/// Scan direction: vertical.
pub const VERTICAL: u16 = 1;

/// Size of the buffer used for full-colour transfers when clearing the screen.
pub const CHUNK_SIZE: usize = 240;

/// Number of regions the driver remembers.
pub const REGION_SLOTS: usize = 10;

/// Display orientation.
#[derive(Copy, Clone, Debug, PartialEq, Eq, Structural)]
pub enum Orientation {
    /// No inverting.
    Portrait,
    /// Column order and page/column order inverted.
    Landscape,
    /// Page and column order inverted.
    PortraitSwapped,
    /// Page order and page/column order inverted.
    LandscapeSwapped,
}

impl Orientation {
    /// The memory-access-control byte that selects this orientation.
    pub open spec fn madctl_value(self) -> u8 {
        match self {
            Orientation::Portrait => 0x00u8,
            Orientation::Landscape => 0x60u8,
            Orientation::PortraitSwapped => 0xC0u8,
            Orientation::LandscapeSwapped => 0xA0u8,
        }
    }

    /// The orientation exchanges rows and columns, so the x and y offsets swap.
    pub open spec fn swaps_axes(self) -> bool {
        self is Landscape || self is LandscapeSwapped
    }

    /// Returns the memory-access-control byte of the orientation.
    pub fn madctl(&self) -> (b: u8)
        ensures
            b == self.madctl_value(),
    {
        match self {
            Orientation::Portrait => 0x00u8,
            Orientation::Landscape => 0x60u8,
            Orientation::PortraitSwapped => 0xC0u8,
            Orientation::LandscapeSwapped => 0xA0u8,
        }
    }
}

impl Default for Orientation {
    fn default() -> (o: Self)
        ensures
            o == Orientation::Portrait,
    {
        Orientation::Portrait
    }
}

/// Distinct orientations select distinct memory-access-control bytes.
pub proof fn lemma_madctl_distinct(a: Orientation, b: Orientation)
    requires
        a.madctl_value() == b.madctl_value(),
    ensures
        a == b,
{
}

/// What the driver holds, as the contracts see it.
pub struct DisplayState {
    pub rgb: bool,
    pub width: u32,
    pub height: u32,
    pub offset_x: u16,
    pub offset_y: u16,
    pub regions: Seq<Option<Region>>,
    pub orientation: Orientation,
    pub has_rst: bool,
    pub has_blk: bool,
}

/// The pixels of a colour, `n` of them, as their bytes on the bus.
pub open spec fn color_run(n: nat, color: u16) -> Seq<u8> {
    Seq::new(2 * n, |k: int| if k % 2 == 0 { color_high(color) } else { color_low(color) })
}

/// One full transfer of the clearing buffer, with the chip selected in data mode.
pub open spec fn chunk_ops(p: Seq<u8>) -> Seq<Op> {
    seq![Op::SetCs(true), Op::SetDc(true), Op::SetCs(false), Op::Write(p), Op::SetCs(true)]
}

/// The steps `s`, `n` times over.
pub open spec fn repeat_ops(s: Seq<Op>, n: nat) -> Seq<Op>
    decreases n,
{
    if n == 0 {
        seq![]
    } else {
        repeat_ops(s, (n - 1) as nat) + s
    }
}

/// The bytes of row `row` of a `w`-pixel wide rectangle at column `x` of a buffer that is
/// `buffer_width` pixels wide.
pub open spec fn row_bytes(buffer: Seq<u8>, buffer_width: int, x: int, w: int, row: int) -> Seq<u8> {
    let s = (row * buffer_width + x) * 2;
    buffer.subrange(s, s + 2 * w)
}

/// The steps that send `count` rows from `first` on, each in pieces of at most 32 bytes.
pub open spec fn rows_ops(buffer: Seq<u8>, buffer_width: int, x: int, w: int, first: int, count: nat) -> Seq<Op>
    decreases count,
{
    if count == 0 {
        seq![]
    } else {
        rows_ops(buffer, buffer_width, x, w, first, (count - 1) as nat) + chunked_data_ops(
            row_bytes(buffer, buffer_width, x, w, first + count - 1),
            32,
        )
    }
}

/// The bytes of `count` rows from `first` on.
pub open spec fn rows_bytes(buffer: Seq<u8>, buffer_width: int, x: int, w: int, first: int, count: nat) -> Seq<u8>
    decreases count,
{
    if count == 0 {
        seq![]
    } else {
        rows_bytes(buffer, buffer_width, x, w, first, (count - 1) as nat) + row_bytes(
            buffer,
            buffer_width,
            x,
            w,
            first + count - 1,
        )
    }
}

/// The steps that send each colour as a data word.
pub open spec fn words_ops(colors: Seq<u16>) -> Seq<Op>
    decreases colors.len(),
{
    if colors.len() == 0 {
        seq![]
    } else {
        words_ops(colors.drop_last()) + data_ops(be_bytes(colors.last()))
    }
}

/// The transfers that stream `d`: full clearing-buffer pieces, then the rest as data.
pub open spec fn stream_writes(d: Seq<u8>) -> Seq<Op>
    decreases d.len(),
{
    if d.len() >= 240 {
        seq![Op::Write(d.take(240))] + stream_writes(d.skip(240))
    } else {
        data_writes(d)
    }
}

/// The end of a range that starts at `start` and is `size` long, cut to 16 bits.
pub open spec fn range_end(start: u16, size: u32) -> u16 {
    (start + size - 1) as u16
}

/// Number of rows from `start` to `end`, both included.
pub open spec fn row_count(start: u16, end: u16) -> nat {
    if end >= start {
        (end - start + 1) as nat
    } else {
        0
    }
}

/// Software reset, leaving sleep, inversion off.
pub open spec fn wake_ops() -> Seq<Op> {
    command_ops(Commands::SwReset.code(), seq![]) + seq![Op::DelayUs(150_000)] + command_ops(
        Commands::SlpOut.code(),
        seq![],
    ) + seq![Op::DelayUs(10_000)] + command_ops(Commands::InvOff.code(), seq![])
}

/// Inversion on, normal mode, display on, each followed by a pause.
pub open spec fn display_on_ops() -> Seq<Op> {
    command_ops(Commands::InvOn.code(), seq![]) + seq![Op::DelayUs(10_000)] + command_ops(
        Commands::NorOn.code(),
        seq![],
    ) + seq![Op::DelayUs(10_000)] + command_ops(Commands::DispOn.code(), seq![]) + seq![Op::DelayUs(10_000)]
}

/// The orientation turns the panel a quarter: Landscape and LandscapeSwapped.
pub open spec fn is_landscape(o: Orientation) -> bool {
    o == Orientation::Landscape || o == Orientation::LandscapeSwapped
}

/// The two bytes of a 16-bit value, high byte first.
pub open spec fn big_endian(v: int) -> Seq<u8> {
    seq![(v / 256) as u8, (v % 256) as u8]
}

/// What columns are shifted by: the y offset in landscape, the x offset otherwise.
pub open spec fn column_offset(st: DisplayState) -> int {
    if is_landscape(st.orientation) {
        st.offset_y as int
    } else {
        st.offset_x as int
    }
}

/// What rows are shifted by: the x offset in landscape, the y offset otherwise.
pub open spec fn row_offset_of(st: DisplayState) -> int {
    if is_landscape(st.orientation) {
        st.offset_x as int
    } else {
        st.offset_y as int
    }
}

impl DisplayState {
    /// The offset added to columns: the x offset, or the y offset when the axes swap.
    pub open spec fn column_shift(self) -> int {
        if self.orientation.swaps_axes() {
            self.offset_y as int
        } else {
            self.offset_x as int
        }
    }

    /// The offset added to rows: the y offset, or the x offset when the axes swap.
    pub open spec fn row_shift(self) -> int {
        if self.orientation.swaps_axes() {
            self.offset_x as int
        } else {
            self.offset_y as int
        }
    }

    /// The window corners, shifted by the offsets, stay within 16 bits.
    pub open spec fn window_fits(self, sx: u16, sy: u16, ex: u16, ey: u16) -> bool {
        &&& sx + self.column_shift() <= u16::MAX
        &&& ex + self.column_shift() <= u16::MAX
        &&& sy + self.row_shift() <= u16::MAX
        &&& ey + self.row_shift() <= u16::MAX
    }

    /// Setting the address window: the column range, the row range, then memory write.
    pub open spec fn window_ops(self, sx: u16, sy: u16, ex: u16, ey: u16) -> Seq<Op> {
        let c = self.column_shift();
        let r = self.row_shift();
        command_ops(Commands::CaSet.code(), seq![]) + seq![Op::SetDc(true)] + data_ops(
            be_bytes((sx + c) as u16),
        ) + data_ops(be_bytes((ex + c) as u16)) + command_ops(Commands::RaSet.code(), seq![]) + seq![
            Op::SetDc(true),
        ] + data_ops(be_bytes((sy + r) as u16)) + data_ops(be_bytes((ey + r) as u16)) + command_ops(
            0x2Cu8,
            seq![],
        )
    }

    /// The bytes that setting the address window sends.
    pub open spec fn window_bytes(self, sx: u16, sy: u16, ex: u16, ey: u16) -> Seq<u8> {
        seq![0x2Au8] + big_endian(sx + column_offset(self)) + big_endian(ex + column_offset(self)) + seq![0x2Bu8]
            + big_endian(sy + row_offset_of(self)) + big_endian(ey + row_offset_of(self)) + seq![0x2Cu8]
    }

    /// The parameters that setting the address window sends: shifted start and end
    /// column, then shifted start and end row, each high byte first.
    pub open spec fn window_params(self, sx: u16, sy: u16, ex: u16, ey: u16) -> Seq<u8> {
        big_endian(sx + column_offset(self)) + big_endian(ex + column_offset(self)) + big_endian(
            sy + row_offset_of(self),
        ) + big_endian(ey + row_offset_of(self))
    }

    /// Starting a memory write into a window.
    pub open spec fn draw_start_ops(self, sx: u16, sy: u16, ex: u16, ey: u16) -> Seq<Op> {
        self.window_ops(sx, sy, ex, ey) + command_ops(Commands::RamWr.code(), seq![]) + seq![Op::SetDc(true)]
    }

    /// Pulsing the reset line, when there is one.
    pub open spec fn hard_reset_ops(self) -> Seq<Op> {
        if self.has_rst {
            seq![
                Op::SetRst(true),
                Op::DelayUs(10),
                Op::SetRst(false),
                Op::DelayUs(10),
                Op::SetRst(true),
                Op::DelayUs(10),
            ]
        } else {
            seq![]
        }
    }

    /// Switching the backlight, when there is one.
    pub open spec fn backlight_ops(self, on: bool) -> Seq<Op> {
        if self.has_blk {
            seq![Op::SetBlk(on), Op::DelayUs(10)]
        } else {
            seq![]
        }
    }

    /// The start-up sequence: reset, wake-up, configuration, display on.
    pub open spec fn init_ops(self) -> Seq<Op> {
        self.reset_ops() + wake_ops() + self.setup_ops() + display_on_ops()
    }

    /// The reset pulse, then a backlight pulse when there is a backlight line.
    pub open spec fn reset_ops(self) -> Seq<Op> {
        self.hard_reset_ops() + if self.has_blk {
            seq![Op::SetBlk(false), Op::DelayUs(10_000), Op::SetBlk(true)]
        } else {
            seq![]
        }
    }

    /// The configuration commands: scrolling area, orientation, 16-bit colour.
    pub open spec fn setup_ops(self) -> Seq<Op> {
        command_ops(Commands::VScrDef.code(), seq![]) + data_ops(seq![0u8, 0u8, 0x14u8, 0u8, 0u8, 0u8])
            + command_ops(Commands::MadCtl.code(), seq![self.orientation.madctl_value()]) + data_ops(seq![0u8])
            + command_ops(Commands::ColMod.code(), seq![]) + data_ops(seq![0x55u8])
    }

    /// The screen has at least one column and one row, as 16-bit sizes.
    pub open spec fn has_pixels(self) -> bool {
        self.width as u16 >= 1 && self.height as u16 >= 1
    }

    /// The last column of the clearing window: the screen's last column, or the width
    /// itself when the screen has no pixels.
    pub open spec fn clear_end_x(self) -> u16 {
        if self.has_pixels() {
            (self.width as u16 - 1) as u16
        } else {
            self.width as u16
        }
    }

    /// The last row of the clearing window: the screen's last row, or the height itself
    /// when the screen has no pixels.
    pub open spec fn clear_end_y(self) -> u16 {
        if self.has_pixels() {
            (self.height as u16 - 1) as u16
        } else {
            self.height as u16
        }
    }

    /// Filling the screen with a colour: the address window covers exactly the screen,
    /// then every pixel is sent; a screen without pixels gets its window and no pixels.
    pub open spec fn clear_screen_ops(self, color: u16) -> Seq<Op> {
        let total = self.width * self.height;
        self.draw_start_ops(0, 0, self.clear_end_x(), self.clear_end_y()) + repeat_ops(
            chunk_ops(color_run(120, color)),
            (total / 120) as nat,
        ) + (if total % 120 > 0 {
            data_ops(color_run((total % 120) as nat, color))
        } else {
            seq![]
        })
    }

    /// Clearing the screen keeps its arithmetic within bounds.
    pub open spec fn clear_screen_fits(self) -> bool {
        &&& self.width * self.height <= u32::MAX
        &&& self.window_fits(0, 0, self.clear_end_x(), self.clear_end_y())
    }

    /// Writing one pixel.
    pub open spec fn write_pixel_ops(self, x: u16, y: u16, color: u16) -> Seq<Op> {
        self.draw_start_ops(x, y, x, y) + data_ops(be_bytes(color))
    }

    /// Writing colours into a window.
    pub open spec fn write_pixels_ops(self, sx: u16, sy: u16, ex: u16, ey: u16, colors: Seq<u16>) -> Seq<Op> {
        self.draw_start_ops(sx, sy, ex, ey) + words_ops(colors)
    }

    /// Drawing a full-screen image, in pieces of at most 32 bytes.
    pub open spec fn draw_image_ops(self, image: Seq<u8>) -> Seq<Op> {
        self.draw_start_ops(0, 0, (self.width as u16 - 1) as u16, (self.height as u16 - 1) as u16)
            + chunked_data_ops(image, 32)
    }

    /// Drawing an image keeps its arithmetic within bounds.
    pub open spec fn draw_image_fits(self) -> bool {
        &&& self.width as u16 >= 1
        &&& self.height as u16 >= 1
        &&& self.window_fits(0, 0, (self.width as u16 - 1) as u16, (self.height as u16 - 1) as u16)
    }

    /// Sending a whole buffer after a fixed window.
    pub open spec fn show_ops(self, buffer: Seq<u8>) -> Seq<Op> {
        command_ops(Commands::CaSet.code(), seq![]) + data_ops(seq![0x00u8, 0x00u8, 0x00u8, 0xEFu8])
            + command_ops(Commands::RaSet.code(), seq![]) + data_ops(seq![0x00u8, 0x00u8, 0x00u8, 0xEFu8])
            + command_ops(Commands::RamWr.code(), seq![]) + seq![
            Op::SetCs(true),
            Op::SetDc(true),
            Op::SetCs(false),
        ] + stream_writes(buffer) + seq![Op::SetCs(true)]
    }

    /// Showing a rectangle of a frame buffer keeps its arithmetic and its rows within bounds.
    pub open spec fn show_region_fits(self, len: int, x: u16, y: u16, w: u32, h: u32) -> bool {
        let ex = range_end(x, w);
        let ey = range_end(y, h);
        &&& 1 <= x + w <= u32::MAX
        &&& 1 <= y + h <= u32::MAX
        &&& self.window_fits(x, y, ex, ey)
        &&& ey >= y ==> (ey as int * self.width as int + x as int) * 2 + 2 * w <= len
    }

    /// Showing a rectangle of a frame buffer: the window, then each row.
    pub open spec fn show_region_ops(self, buffer: Seq<u8>, x: u16, y: u16, w: u32, h: u32) -> Seq<Op> {
        let ex = range_end(x, w);
        let ey = range_end(y, h);
        self.draw_start_ops(x, y, ex, ey) + rows_ops(
            buffer,
            self.width as int,
            x as int,
            w as int,
            y as int,
            row_count(y, ey),
        )
    }

    /// Every remembered region can be shown from a buffer of `len` bytes.
    pub open spec fn regions_fit(self, len: int) -> bool {
        forall|i: int|
            0 <= i < self.regions.len() && (#[trigger] self.regions[i]) is Some ==> {
                let r = self.regions[i]->0;
                self.show_region_fits(len, r.x, r.y, r.width, r.height)
            }
    }

    /// Showing the first `n` region slots, in order.
    pub open spec fn show_regions_ops(self, buffer: Seq<u8>, n: nat) -> Seq<Op>
        decreases n,
    {
        if n == 0 {
            seq![]
        } else {
            self.show_regions_ops(buffer, (n - 1) as nat) + match self.regions[n - 1] {
                Some(r) => self.show_region_ops(buffer, r.x, r.y, r.width, r.height),
                None => seq![],
            }
        }
    }

    /// Drawing a pixel one at a time, when it lies on the screen.
    pub open spec fn draw_pixel_ops(self, p: PixelData) -> Seq<Op> {
        if in_frame(p, self.width, self.height) {
            self.write_pixel_ops(p.x as u16, p.y as u16, p.color)
        } else {
            seq![]
        }
    }

    /// Drawing pixels in order.
    pub open spec fn draw_iter_ops(self, pixels: Seq<PixelData>) -> Seq<Op>
        decreases pixels.len(),
    {
        if pixels.len() == 0 {
            seq![]
        } else {
            self.draw_iter_ops(pixels.drop_last()) + self.draw_pixel_ops(pixels.last())
        }
    }

    /// Each pixel on the screen has a window that fits.
    pub open spec fn pixels_fit(self, pixels: Seq<PixelData>) -> bool {
        forall|i: int|
            0 <= i < pixels.len() && in_frame(#[trigger] pixels[i], self.width, self.height) ==> self.window_fits(
                pixels[i].x as u16,
                pixels[i].y as u16,
                pixels[i].x as u16,
                pixels[i].y as u16,
            )
    }
}

/// The driver of an ST7789 display: the settings and remembered regions that decide what
/// goes on the bus. Every operation returns the bus steps it takes.
pub struct ST7789 {
    /// Whether the display is RGB (true) or BGR (false).
    rgb: bool,
    width: u32,
    height: u32,
    offset_x: u16,
    offset_y: u16,
    regions: [Option<Region>; 10],
    orientation: Orientation,
    /// A reset line is wired.
    has_rst: bool,
    /// A backlight line is wired.
    has_blk: bool,
}

impl View for ST7789 {
    type V = DisplayState;

    closed spec fn view(&self) -> DisplayState {
        DisplayState {
            rgb: self.rgb,
            width: self.width,
            height: self.height,
            offset_x: self.offset_x,
            offset_y: self.offset_y,
            regions: self.regions@,
            orientation: self.orientation,
            has_rst: self.has_rst,
            has_blk: self.has_blk,
        }
    }
}

impl ST7789 {
    /// Creates a driver for a `width` by `height` display.
    ///
    /// * `has_rst` - a reset line is wired.
    /// * `has_blk` - a backlight line is wired.
    /// * `rgb` - whether the display is RGB (true) or BGR (false).
    pub fn new(has_rst: bool, has_blk: bool, rgb: bool, width: u32, height: u32) -> (d: Self)
        ensures
            d@ == (DisplayState {
                rgb,
                width,
                height,
                offset_x: 0,
                offset_y: 0,
                regions: Seq::new(10, |i: int| None),
                orientation: Orientation::Portrait,
                has_rst,
                has_blk,
            }),
    {
        let d = ST7789 {
            rgb,
            width,
            height,
            offset_x: 0,
            offset_y: 0,
            regions: [None; 10],
            orientation: Orientation::default(),
            has_rst,
            has_blk,
        };
        assert(d.regions@ =~= Seq::new(10, |i: int| None::<Region>));
        d
    }

    /// The width of the display, in pixels.
    pub fn width(&self) -> (w: u32)
        ensures
            w == self@.width,
    {
        self.width
    }

    /// The height of the display, in pixels.
    pub fn height(&self) -> (h: u32)
        ensures
            h == self@.height,
    {
        self.height
    }

    /// Sets the offset of the visible area within the controller's memory.
    pub fn set_offset(&mut self, offset_x: u16, offset_y: u16)
        ensures
            final(self)@ == (DisplayState { offset_x, offset_y, ..old(self)@ }),
    {
        self.offset_x = offset_x;
        self.offset_y = offset_y;
    }

    /// Records whether a backlight line is wired.
    pub fn set_blk(&mut self, has_blk: bool)
        ensures
            final(self)@ == (DisplayState { has_blk, ..old(self)@ }),
    {
        self.has_blk = has_blk;
    }

    /// Returns currently set orientation.
    pub fn orientation(&self) -> (o: Orientation)
        ensures
            o == self@.orientation,
    {
        self.orientation
    }

    /// Records a new orientation once its command went out: on `Ok` the orientation is
    /// taken, on `Err` nothing changes; the outcome is passed on.
    pub fn set_orientation(&mut self, orientation: Orientation, sent: Result<(), ()>) -> (r: Result<(), ()>)
        ensures
            r == sent,
            sent is Ok ==> final(self)@ == (DisplayState { orientation, ..old(self)@ }),
            sent is Err ==> final(self)@ == old(self)@,
    {
        if sent.is_ok() {
            self.orientation = orientation;
        }
        sent
    }





}


impl ST7789 {
    fn push_window(&self, ops: &mut Vec<BusOp>, sx: u16, sy: u16, ex: u16, ey: u16)
        requires
            self@.window_fits(sx, sy, ex, ey),
        ensures
            ops_view(final(ops)@) == ops_view(old(ops)@) + self@.window_ops(sx, sy, ex, ey),
    {
        let ghost base = ops_view(ops@);
        let (cx, ry) = match self.orientation {
            Orientation::Portrait | Orientation::PortraitSwapped => (self.offset_x, self.offset_y),
            Orientation::Landscape | Orientation::LandscapeSwapped => (self.offset_y, self.offset_x),
        };
        let start_x = sx + cx;
        let end_x = ex + cx;
        let start_y = sy + ry;
        let end_y = ey + ry;
        let no_params: [u8; 0] = [];
        push_command(ops, Commands::CaSet.opcode(), &no_params);
        push_op(ops, BusOp::SetDc(true));
        push_word(ops, start_x);
        push_word(ops, end_x);
        push_command(ops, Commands::RaSet.opcode(), &no_params);
        push_op(ops, BusOp::SetDc(true));
        push_word(ops, start_y);
        push_word(ops, end_y);
        push_command(ops, 0x2Cu8, &no_params);
        assert(no_params@ =~= Seq::<u8>::empty());
        assert(ops_view(ops@) =~= base + self@.window_ops(sx, sy, ex, ey));
    }

    fn push_draw_start(&self, ops: &mut Vec<BusOp>, sx: u16, sy: u16, ex: u16, ey: u16)
        requires
            self@.window_fits(sx, sy, ex, ey),
        ensures
            ops_view(final(ops)@) == ops_view(old(ops)@) + self@.draw_start_ops(sx, sy, ex, ey),
    {
        let ghost base = ops_view(ops@);
        self.push_window(ops, sx, sy, ex, ey);
        let no_params: [u8; 0] = [];
        assert(no_params@ =~= Seq::<u8>::empty());
        push_command(ops, Commands::RamWr.opcode(), &no_params);
        push_op(ops, BusOp::SetDc(true));
        assert(ops_view(ops@) =~= base + self@.draw_start_ops(sx, sy, ex, ey));
    }

    fn push_region(&self, ops: &mut Vec<BusOp>, buffer: &[u8], x: u16, y: u16, width: u32, height: u32)
        requires
            self@.show_region_fits(buffer@.len() as int, x, y, width, height),
        ensures
            ops_view(final(ops)@) == ops_view(old(ops)@) + self@.show_region_ops(buffer@, x, y, width, height),
    {
        let ghost base = ops_view(ops@);
        let start_x = x;
        let start_y = y;
        let end_x = (x as u32 + width - 1) as u16;
        let end_y = (y as u32 + height - 1) as u16;
        let buffer_width = self.width as usize;
        let len = buffer.len();
        self.push_draw_start(ops, start_x, start_y, end_x, end_y);
        let ghost mid = ops_view(ops@);
        let ghost bw = self.width as int;
        if end_y >= start_y {
            let mut row: u32 = start_y as u32;
            while row <= end_y as u32
                invariant
                    start_x == x,
                    start_y == y,
                    start_y <= row <= end_y + 1,
                    end_y >= start_y,
                    buffer_width == bw,
                    len == buffer@.len(),
                    (end_y as int * bw + x as int) * 2 + 2 * width <= len,
                    ops_view(ops@) == mid + rows_ops(
                        buffer@,
                        bw,
                        x as int,
                        width as int,
                        start_y as int,
                        (row - start_y) as nat,
                    ),
                decreases end_y + 1 - row,
            {
                proof {
                    assert(0 <= (row as int) * (buffer_width as int) <= (end_y as int) * (buffer_width as int))
                        by (nonlinear_arith)
                        requires
                            0 <= row <= end_y,
                            0 <= buffer_width,
                    ;
                }
                let start_index = (row as usize * buffer_width + start_x as usize) * 2;
                let end_index = start_index + width as usize * 2;
                push_chunked_data(ops, &buffer[start_index..end_index], 32);
                proof {
                    let count = (row - start_y) as nat;
                    assert(buffer@.subrange(start_index as int, end_index as int) == row_bytes(
                        buffer@,
                        bw,
                        x as int,
                        width as int,
                        start_y + (count + 1) - 1,
                    ));
                    assert(rows_ops(buffer@, bw, x as int, width as int, start_y as int, count + 1)
                        == rows_ops(buffer@, bw, x as int, width as int, start_y as int, count)
                        + chunked_data_ops(
                        row_bytes(buffer@, bw, x as int, width as int, start_y + (count + 1) - 1),
                        32,
                    ));
                    assert(ops_view(ops@) =~= mid + rows_ops(
                        buffer@,
                        bw,
                        x as int,
                        width as int,
                        start_y as int,
                        count + 1,
                    ));
                }
                row = row + 1;
            }
            assert(row_count(start_y, end_y) == (row - start_y) as nat);
        } else {
            assert(row_count(start_y, end_y) == 0);
            assert(ops_view(ops@) =~= mid + rows_ops(buffer@, bw, x as int, width as int, start_y as int, 0));
        }
        assert(ops_view(ops@) =~= base + self@.show_region_ops(buffer@, x, y, width, height));
    }

    fn push_pixel(&self, ops: &mut Vec<BusOp>, x: u16, y: u16, color: u16)
        requires
            self@.window_fits(x, y, x, y),
        ensures
            ops_view(final(ops)@) == ops_view(old(ops)@) + self@.write_pixel_ops(x, y, color),
    {
        let ghost base = ops_view(ops@);
        self.push_draw_start(ops, x, y, x, y);
        push_word(ops, color);
        assert(ops_view(ops@) =~= base + self@.write_pixel_ops(x, y, color));
    }

    /// Sets the address window for subsequent drawing.
    pub fn set_address_window(&self, start_x: u16, start_y: u16, end_x: u16, end_y: u16) -> (ops: Vec<BusOp>)
        requires
            self@.window_fits(start_x, start_y, end_x, end_y),
        ensures
            ops_view(ops@) == self@.window_ops(start_x, start_y, end_x, end_y),
            writes_fit(ops_view(ops@)),
            transmitted(ops_view(ops@)) == self@.window_bytes(start_x, start_y, end_x, end_y),
            cs_after(ops_view(ops@), true),
    {
        let mut ops: Vec<BusOp> = Vec::new();
        self.push_window(&mut ops, start_x, start_y, end_x, end_y);
        assert(ops_view(ops@) =~= self@.window_ops(start_x, start_y, end_x, end_y));
        proof {
            lemma_window(self@, start_x, start_y, end_x, end_y);
        }
        proof {
            lemma_cs_window(self@, start_x, start_y, end_x, end_y);
        }
        ops
    }

    /// The command that selects an orientation; `set_orientation` records it once sent.
    pub fn set_orientation_ops(&self, orientation: Orientation) -> (ops: Vec<BusOp>)
        ensures
            ops_view(ops@) == command_ops(Commands::MadCtl.code(), seq![orientation.madctl_value()]),
            writes_fit(ops_view(ops@)),
            transmitted(ops_view(ops@)) == seq![Commands::MadCtl.code(), orientation.madctl_value()],
            cs_after(ops_view(ops@), true),
    {
        let mut ops: Vec<BusOp> = Vec::new();
        let param: [u8; 1] = [orientation.madctl()];
        assert(param@ =~= seq![orientation.madctl_value()]);
        push_command(&mut ops, Commands::MadCtl.opcode(), &param);
        assert(ops_view(ops@) =~= command_ops(Commands::MadCtl.code(), seq![orientation.madctl_value()]));
        proof {
            crate::bus::lemma_command_ops(Commands::MadCtl.code(), seq![orientation.madctl_value()]);
            assert(seq![Commands::MadCtl.code()] + seq![orientation.madctl_value()] =~= seq![
                Commands::MadCtl.code(),
                orientation.madctl_value(),
            ]);
        }
        proof {
            crate::bus::lemma_cs_command(Commands::MadCtl.code(), seq![orientation.madctl_value()], true);
        }
        ops
    }

    /// Performs a hard reset of the display by pulsing the reset line, when there is one.
    pub fn hard_reset(&self) -> (ops: Vec<BusOp>)
        ensures
            ops_view(ops@) == self@.hard_reset_ops(),
            cs_after(ops_view(ops@), true),
    {
        let mut ops: Vec<BusOp> = Vec::new();
        if self.has_rst {
            push_op(&mut ops, BusOp::SetRst(true));
            push_op(&mut ops, BusOp::DelayUs(10));
            push_op(&mut ops, BusOp::SetRst(false));
            push_op(&mut ops, BusOp::DelayUs(10));
            push_op(&mut ops, BusOp::SetRst(true));
            push_op(&mut ops, BusOp::DelayUs(10));
        }
        assert(ops_view(ops@) =~= self@.hard_reset_ops());
        proof {
            lemma_cs_released(self@, 0, seq![], seq![], true);
        }
        ops
    }

    /// Switches the backlight on or off, when there is a backlight line.
    pub fn set_backlight(&self, on: bool) -> (ops: Vec<BusOp>)
        ensures
            ops_view(ops@) == self@.backlight_ops(on),
            cs_after(ops_view(ops@), true),
    {
        let mut ops: Vec<BusOp> = Vec::new();
        if self.has_blk {
            push_op(&mut ops, BusOp::SetBlk(on));
            push_op(&mut ops, BusOp::DelayUs(10));
        }
        assert(ops_view(ops@) =~= self@.backlight_ops(on));
        proof {
            lemma_cs_released(self@, 0, seq![], seq![], on);
        }
        ops
    }

    fn push_wake(ops: &mut Vec<BusOp>)
        ensures
            ops_view(final(ops)@) == ops_view(old(ops)@) + wake_ops(),
    {
        let ghost base = ops_view(ops@);
        let no_params: [u8; 0] = [];
        assert(no_params@ =~= Seq::<u8>::empty());
        push_command(ops, Commands::SwReset.opcode(), &no_params);
        push_op(ops, BusOp::DelayUs(150_000));
        push_command(ops, Commands::SlpOut.opcode(), &no_params);
        push_op(ops, BusOp::DelayUs(10_000));
        push_command(ops, Commands::InvOff.opcode(), &no_params);
        assert(ops_view(ops@) =~= base + wake_ops());
    }

    fn push_setup(&self, ops: &mut Vec<BusOp>)
        ensures
            ops_view(final(ops)@) == ops_view(old(ops)@) + self@.setup_ops(),
    {
        let ghost base = ops_view(ops@);
        let no_params: [u8; 0] = [];
        assert(no_params@ =~= Seq::<u8>::empty());
        push_command(ops, Commands::VScrDef.opcode(), &no_params);
        let scroll: [u8; 6] = [0u8, 0u8, 0x14u8, 0u8, 0u8, 0u8];
        assert(scroll@ =~= seq![0u8, 0u8, 0x14u8, 0u8, 0u8, 0u8]);
        push_data(ops, &scroll);
        let madctl: [u8; 1] = [self.orientation.madctl()];
        assert(madctl@ =~= seq![self@.orientation.madctl_value()]);
        push_command(ops, Commands::MadCtl.opcode(), &madctl);
        let zero: [u8; 1] = [0b0000_0000u8];
        assert(zero@ =~= seq![0u8]);
        push_data(ops, &zero);
        push_command(ops, Commands::ColMod.opcode(), &no_params);
        let colmod: [u8; 1] = [0b0101_0101u8];
        assert(colmod@ =~= seq![0x55u8]);
        push_data(ops, &colmod);
        assert(ops_view(ops@) =~= base + self@.setup_ops());
    }

    fn push_display_on(ops: &mut Vec<BusOp>)
        ensures
            ops_view(final(ops)@) == ops_view(old(ops)@) + display_on_ops(),
    {
        let ghost base = ops_view(ops@);
        let no_params: [u8; 0] = [];
        assert(no_params@ =~= Seq::<u8>::empty());
        push_command(ops, Commands::InvOn.opcode(), &no_params);
        push_op(ops, BusOp::DelayUs(10_000));
        push_command(ops, Commands::NorOn.opcode(), &no_params);
        push_op(ops, BusOp::DelayUs(10_000));
        push_command(ops, Commands::DispOn.opcode(), &no_params);
        push_op(ops, BusOp::DelayUs(10_000));
        assert(ops_view(ops@) =~= base + display_on_ops());
    }

    /// Initializes the display: hard reset, backlight pulse, then the configuration commands.
    pub fn init(&self) -> (ops: Vec<BusOp>)
        ensures
            ops_view(ops@) == self@.init_ops(),
            writes_fit(ops_view(ops@)),
            transmitted(ops_view(ops@)) == seq![0x01u8, 0x11u8, 0x20u8, 0x33u8, 0u8, 0u8, 0x14u8, 0u8, 0u8, 0u8]
                + seq![
                0x36u8,
                match self@.orientation {
                    Orientation::Portrait => 0x00u8,
                    Orientation::Landscape => 0x60u8,
                    Orientation::PortraitSwapped => 0xC0u8,
                    Orientation::LandscapeSwapped => 0xA0u8,
                },
            ] + seq![0x00u8, 0x3Au8, 0x55u8, 0x21u8, 0x13u8, 0x29u8],
            cs_after(ops_view(ops@), true),
    {
        let mut ops = self.hard_reset();
        if self.has_blk {
            push_op(&mut ops, BusOp::SetBlk(false));
            push_op(&mut ops, BusOp::DelayUs(10_000));
            push_op(&mut ops, BusOp::SetBlk(true));
        }
        assert(ops_view(ops@) =~= self@.reset_ops());
        Self::push_wake(&mut ops);
        self.push_setup(&mut ops);
        Self::push_display_on(&mut ops);
        proof {
            lemma_init_fits(self@);
            lemma_init_bytes(self@);
        }
        proof {
            lemma_cs_released(self@, 0, seq![], seq![], true);
        }
        ops
    }

    /// Clears the screen by filling it with a single RGB565 colour: the address window
    /// covers exactly the screen, then every pixel is sent.
    pub fn clear_screen(&self, color: u16) -> (ops: Vec<BusOp>)
        requires
            self@.clear_screen_fits(),
        ensures
            ops_view(ops@) == self@.clear_screen_ops(color),
            writes_fit(ops_view(ops@)),
            transmitted(ops_view(ops@)) == self@.window_bytes(0, 0, self@.clear_end_x(), self@.clear_end_y())
                + seq![Commands::RamWr.code()] + color_run((self@.width * self@.height) as nat, color),
            self@.width * self@.height == 0 ==> transmitted(ops_view(ops@)) == self@.window_bytes(
                0,
                0,
                self@.width as u16,
                self@.height as u16,
            ) + seq![Commands::RamWr.code()],
            cs_after(ops_view(ops@), true),
    {
        let hi = high_byte(color);
        let lo = low_byte(color);
        let mut ops: Vec<BusOp> = Vec::new();
        let (end_x, end_y) = self.clear_window_end();
        self.push_draw_start(&mut ops, 0, 0, end_x, end_y);
        let ghost start = ops_view(ops@);
        let mut chunk: Vec<u8> = Vec::new();
        let mut k: usize = 0;
        while k < CHUNK_SIZE / 2
            invariant
                k <= 120,
                hi == color_high(color),
                lo == color_low(color),
                chunk@ == color_run(k as nat, color),
            decreases 120 - k,
        {
            chunk.push(hi);
            chunk.push(lo);
            k = k + 1;
            assert(chunk@ =~= color_run(k as nat, color));
        }
        let total = (self.width * self.height) as usize;
        let full_chunks = total / (CHUNK_SIZE / 2);
        let remaining = total % (CHUNK_SIZE / 2);
        let mut c: usize = 0;
        while c < full_chunks
            invariant
                c <= full_chunks,
                chunk@ == color_run(120, color),
                ops_view(ops@) == start + repeat_ops(chunk_ops(color_run(120, color)), c as nat),
            decreases full_chunks - c,
        {
            push_op(&mut ops, BusOp::SetCs(true));
            push_op(&mut ops, BusOp::SetDc(true));
            push_op(&mut ops, BusOp::SetCs(false));
            push_op(&mut ops, BusOp::Write(vstd::slice::slice_to_vec(chunk.as_slice())));
            push_op(&mut ops, BusOp::SetCs(true));
            c = c + 1;
            assert(ops_view(ops@) =~= start + repeat_ops(chunk_ops(color_run(120, color)), c as nat));
        }
        if remaining > 0 {
            assert(chunk@.subrange(0, 2 * remaining as int) =~= color_run(remaining as nat, color));
            push_data(&mut ops, &chunk.as_slice()[0..remaining * 2]);
        }
        assert(ops_view(ops@) =~= self@.clear_screen_ops(color));
        proof {
            lemma_clear_screen(self@, color);
            if self@.width * self@.height == 0 {
                assert(self@.width == 0 || self@.height == 0) by (nonlinear_arith)
                    requires
                        self@.width * self@.height == 0,
                ;
                assert(!self@.has_pixels());
                assert(color_run(0, color) =~= Seq::<u8>::empty());
                assert(self@.window_bytes(0, 0, self@.width as u16, self@.height as u16) + seq![
                    Commands::RamWr.code(),
                ] + color_run(0, color) =~= self@.window_bytes(0, 0, self@.width as u16, self@.height as u16)
                    + seq![Commands::RamWr.code()]);
            }
        }
        proof {
            lemma_cs_released(self@, color, seq![], seq![], true);
        }
        ops
    }

    /// Sets a pixel colour at the given coordinates.
    pub fn write_pixel(&self, x: u16, y: u16, color: u16) -> (ops: Vec<BusOp>)
        requires
            self@.window_fits(x, y, x, y),
        ensures
            ops_view(ops@) == self@.write_pixel_ops(x, y, color),
            writes_fit(ops_view(ops@)),
            transmitted(ops_view(ops@)) == self@.window_bytes(x, y, x, y) + seq![Commands::RamWr.code()]
                + be_bytes(color),
            cs_after(ops_view(ops@), true),
    {
        let mut ops: Vec<BusOp> = Vec::new();
        self.push_pixel(&mut ops, x, y, color);
        assert(ops_view(ops@) =~= self@.write_pixel_ops(x, y, color));
        proof {
            lemma_draw_start(self@, x, y, x, y);
            crate::bus::lemma_data_ops(be_bytes(color));
            lemma_join(self@.draw_start_ops(x, y, x, y), data_ops(be_bytes(color)));
        }
        proof {
            lemma_cs_drawing(self@, seq![], seq![], seq![]);
        }
        ops
    }

    /// Sets pixel colours in the given rectangle bounds, one colour per pixel in order.
    pub fn write_pixels(&self, sx: u16, sy: u16, ex: u16, ey: u16, colors: &[u16]) -> (ops: Vec<BusOp>)
        requires
            self@.window_fits(sx, sy, ex, ey),
        ensures
            ops_view(ops@) == self@.write_pixels_ops(sx, sy, ex, ey, colors@),
            writes_fit(ops_view(ops@)),
            transmitted(ops_view(ops@)) == self@.window_bytes(sx, sy, ex, ey) + seq![Commands::RamWr.code()]
                + colors_bytes(colors@),
            cs_after(ops_view(ops@), true),
    {
        let mut ops: Vec<BusOp> = Vec::new();
        self.push_draw_start(&mut ops, sx, sy, ex, ey);
        let ghost start = ops_view(ops@);
        let mut i: usize = 0;
        while i < colors.len()
            invariant
                i <= colors@.len(),
                ops_view(ops@) == start + words_ops(colors@.take(i as int)),
            decreases colors@.len() - i,
        {
            push_word(&mut ops, colors[i]);
            proof {
                assert(colors@.take(i + 1).drop_last() =~= colors@.take(i as int));
                assert(colors@.take(i + 1).last() == colors@[i as int]);
            }
            i = i + 1;
            assert(ops_view(ops@) =~= start + words_ops(colors@.take(i as int)));
        }
        assert(colors@.take(colors@.len() as int) =~= colors@);
        proof {
            lemma_draw_start(self@, sx, sy, ex, ey);
            lemma_words_fit(colors@);
            lemma_join(self@.draw_start_ops(sx, sy, ex, ey), words_ops(colors@));
        }
        proof {
            lemma_write_pixels_bytes(self@, sx, sy, ex, ey, colors@);
            lemma_cs_drawing(self@, seq![], seq![], colors@);
            assert(cs_after(self@.write_pixels_ops(sx, sy, ex, ey, colors@), true));
            assert(ops_view(ops@) == self@.write_pixels_ops(sx, sy, ex, ey, colors@));
        }
        ops
    }

    /// Draws a full-screen image from RGB565 data, 32 bytes at a time.
    pub fn draw_image(&self, image_data: &[u8]) -> (ops: Vec<BusOp>)
        requires
            self@.draw_image_fits(),
        ensures
            ops_view(ops@) == self@.draw_image_ops(image_data@),
            writes_fit(ops_view(ops@)),
            transmitted(ops_view(ops@)) == self@.window_bytes(
                0,
                0,
                (self@.width as u16 - 1) as u16,
                (self@.height as u16 - 1) as u16,
            ) + seq![Commands::RamWr.code()] + image_data@,
            cs_after(ops_view(ops@), true),
    {
        let width = self.width as u16;
        let height = self.height as u16;
        let mut ops: Vec<BusOp> = Vec::new();
        self.push_draw_start(&mut ops, 0, 0, width - 1, height - 1);
        push_chunked_data(&mut ops, image_data, 32);
        proof {
            lemma_draw_start(self@, 0, 0, (width - 1) as u16, (height - 1) as u16);
            crate::bus::lemma_chunked_data_ops(image_data@, 32);
            lemma_join(
                self@.draw_start_ops(0, 0, (width - 1) as u16, (height - 1) as u16),
                chunked_data_ops(image_data@, 32),
            );
        }
        proof {
            lemma_cs_released(self@, 0, seq![], image_data@, true);
        }
        ops
    }

    /// Displays a whole buffer: a fixed window, then the buffer's bytes as pixel data.
    pub fn show(&self, buffer: &[u8]) -> (ops: Vec<BusOp>)
        ensures
            ops_view(ops@) == self@.show_ops(buffer@),
            writes_fit(ops_view(ops@)),
            transmitted(ops_view(ops@)) == seq![Commands::CaSet.code(), 0x00u8, 0x00u8, 0x00u8, 0xEFu8]
                + seq![Commands::RaSet.code(), 0x00u8, 0x00u8, 0x00u8, 0xEFu8] + seq![Commands::RamWr.code()]
                + buffer@,
            cs_after(ops_view(ops@), true),
    {
        let mut ops: Vec<BusOp> = Vec::new();
        let no_params: [u8; 0] = [];
        assert(no_params@ =~= Seq::<u8>::empty());
        let window: [u8; 4] = [0x00u8, 0x00u8, 0x00u8, 0xEFu8];
        assert(window@ =~= seq![0x00u8, 0x00u8, 0x00u8, 0xEFu8]);
        push_command(&mut ops, Commands::CaSet.opcode(), &no_params);
        push_data(&mut ops, &window);
        push_command(&mut ops, Commands::RaSet.opcode(), &no_params);
        push_data(&mut ops, &window);
        push_command(&mut ops, Commands::RamWr.opcode(), &no_params);
        push_op(&mut ops, BusOp::SetCs(true));
        push_op(&mut ops, BusOp::SetDc(true));
        push_op(&mut ops, BusOp::SetCs(false));
        let ghost before = ops_view(ops@);
        let len = buffer.len();
        let mut i: usize = 0;
        assert(buffer@.skip(0) =~= buffer@);
        while len - i >= CHUNK_SIZE
            invariant
                i <= len,
                len == buffer@.len(),
                ops_view(ops@) + stream_writes(buffer@.skip(i as int)) == before + stream_writes(buffer@),
            decreases len - i,
        {
            let ghost prev = ops_view(ops@);
            let piece = vstd::slice::slice_to_vec(&buffer[i..i + CHUNK_SIZE]);
            push_op(&mut ops, BusOp::Write(piece));
            proof {
                let rest = buffer@.skip(i as int);
                assert(rest.take(240) =~= buffer@.subrange(i as int, i + 240));
                assert(rest.skip(240) =~= buffer@.skip(i + 240));
                assert(ops_view(ops@) + stream_writes(buffer@.skip(i + 240)) =~= prev + stream_writes(rest));
            }
            i = i + CHUNK_SIZE;
        }
        push_data_writes(&mut ops, &buffer[i..len]);
        assert(buffer@.subrange(i as int, len as int) =~= buffer@.skip(i as int));
        push_op(&mut ops, BusOp::SetCs(true));
        assert(ops_view(ops@) =~= self@.show_ops(buffer@));
        proof {
            lemma_show(self@, buffer@);
        }
        proof {
            lemma_cs_released(self@, 0, buffer@, seq![], true);
        }
        ops
    }



    /// Draws pixels one at a time; pixels off the screen are skipped.
    pub fn draw_iter(&self, pixels: &[PixelData]) -> (ops: Vec<BusOp>)
        requires
            self@.pixels_fit(pixels@),
        ensures
            ops_view(ops@) == self@.draw_iter_ops(pixels@),
            writes_fit(ops_view(ops@)),
            transmitted(ops_view(ops@)) == pixels_bytes(self@, pixels@),
            cs_after(ops_view(ops@), true),
    {
        let mut ops: Vec<BusOp> = Vec::new();
        let mut i: usize = 0;
        proof {
            crate::bus::lemma_no_writes(Seq::<Op>::empty());
        }
        assert(ops_view(ops@) =~= Seq::<Op>::empty());
        while i < pixels.len()
            invariant
                i <= pixels@.len(),
                self@.pixels_fit(pixels@),
                ops_view(ops@) == self@.draw_iter_ops(pixels@.take(i as int)),
                writes_fit(ops_view(ops@)),
            decreases pixels@.len() - i,
        {
            let ghost before = ops_view(ops@);
            let p = pixels[i];
            if p.x >= 0 && p.x < self.width as i32 && p.y >= 0 && p.y < self.height as i32 {
                assert(in_frame(pixels@[i as int], self@.width, self@.height));
                self.push_pixel(&mut ops, p.x as u16, p.y as u16, p.color);
                proof {
                    lemma_draw_start(self@, p.x as u16, p.y as u16, p.x as u16, p.y as u16);
                    crate::bus::lemma_data_ops(be_bytes(p.color));
                    lemma_join(
                        self@.draw_start_ops(p.x as u16, p.y as u16, p.x as u16, p.y as u16),
                        data_ops(be_bytes(p.color)),
                    );
                    lemma_join(before, self@.write_pixel_ops(p.x as u16, p.y as u16, p.color));
                }
            }
            proof {
                assert(pixels@.take(i + 1).drop_last() =~= pixels@.take(i as int));
                assert(pixels@.take(i + 1).last() == p);
            }
            i = i + 1;
            assert(ops_view(ops@) =~= self@.draw_iter_ops(pixels@.take(i as int)));
        }
        assert(pixels@.take(pixels@.len() as int) =~= pixels@);
        proof {
            lemma_draw_iter_bytes(self@, pixels@);
            lemma_cs_drawing(self@, seq![], pixels@, seq![]);
        }
        ops
    }
}



impl ST7789 {
    fn shifts(&self) -> (r: (u16, u16))
        ensures
            r.0 == self@.column_shift(),
            r.1 == self@.row_shift(),
    {
        match self.orientation {
            Orientation::Portrait | Orientation::PortraitSwapped => (self.offset_x, self.offset_y),
            Orientation::Landscape | Orientation::LandscapeSwapped => (self.offset_y, self.offset_x),
        }
    }

    /// Whether the window corners, shifted by the offsets, stay within 16 bits, as every
    /// drawing operation needs.
    pub fn window_fits(&self, sx: u16, sy: u16, ex: u16, ey: u16) -> (ok: bool)
        ensures
            ok == self@.window_fits(sx, sy, ex, ey),
    {
        let (c, r) = self.shifts();
        sx as u32 + c as u32 <= 0xFFFF && ex as u32 + c as u32 <= 0xFFFF && sy as u32 + r as u32 <= 0xFFFF
            && ey as u32 + r as u32 <= 0xFFFF
    }

    /// Whether `show_region` can send this rectangle from a buffer of `len` bytes.
    pub fn region_fits(&self, len: usize, x: u16, y: u16, width: u32, height: u32) -> (ok: bool)
        ensures
            ok == self@.show_region_fits(len as int, x, y, width, height),
    {
        let xw = x as u64 + width as u64;
        let yh = y as u64 + height as u64;
        if xw < 1 || xw > 0xFFFF_FFFF || yh < 1 || yh > 0xFFFF_FFFF {
            return false;
        }
        let ex = (x as u32 + width - 1) as u16;
        let ey = (y as u32 + height - 1) as u16;
        if !self.window_fits(x, y, ex, ey) {
            return false;
        }
        if ey >= y {
            proof {
                assert(0 <= (ey as int) * (self.width as int) <= 0xFFFF * 0xFFFF_FFFF) by (nonlinear_arith)
                    requires
                        0 <= ey <= 0xFFFF,
                        0 <= self.width <= 0xFFFF_FFFF,
                ;
            }
            (ey as u64 * self.width as u64 + x as u64) * 2 + 2 * width as u64 <= len as u64
        } else {
            true
        }
    }

    /// Whether `clear_screen` can run on this display.
    pub fn can_clear_screen(&self) -> (ok: bool)
        ensures
            ok == self@.clear_screen_fits(),
    {
        proof {
            assert(0 <= (self.width as int) * (self.height as int) <= 0xFFFF_FFFF * 0xFFFF_FFFF) by (nonlinear_arith)
                requires
                    0 <= self.width <= 0xFFFF_FFFF,
                    0 <= self.height <= 0xFFFF_FFFF,
            ;
        }
        let (end_x, end_y) = self.clear_window_end();
        self.width as u64 * self.height as u64 <= 0xFFFF_FFFF && self.window_fits(0, 0, end_x, end_y)
    }

    fn clear_window_end(&self) -> (e: (u16, u16))
        ensures
            e.0 == self@.clear_end_x(),
            e.1 == self@.clear_end_y(),
    {
        let w = self.width as u16;
        let h = self.height as u16;
        if w >= 1 && h >= 1 {
            (w - 1, h - 1)
        } else {
            (w, h)
        }
    }

    /// Whether `draw_image` can run on this display.
    pub fn can_draw_image(&self) -> (ok: bool)
        ensures
            ok == self@.draw_image_fits(),
    {
        let w = self.width as u16;
        let h = self.height as u16;
        w >= 1 && h >= 1 && self.window_fits(0, 0, w - 1, h - 1)
    }

    /// Whether `draw_iter` can take this pixel.
    pub fn pixel_fits(&self, p: PixelData) -> (ok: bool)
        ensures
            ok == self@.pixels_fit(seq![p]),
    {
        let on_screen = p.x >= 0 && p.x < self.width as i32 && p.y >= 0 && p.y < self.height as i32;
        let r = !on_screen || self.window_fits(p.x as u16, p.y as u16, p.x as u16, p.y as u16);
        proof {
            let s = seq![p];
            assert(s[0] == p);
            if r {
                assert forall|i: int| 0 <= i < s.len() && in_frame(#[trigger] s[i], self@.width, self@.height) implies self@.window_fits(
                    s[i].x as u16,
                    s[i].y as u16,
                    s[i].x as u16,
                    s[i].y as u16,
                ) by {
                    assert(i == 0);
                }
            }
        }
        r
    }
}

impl Block for ST7789 {

}

impl RegionExt for ST7789 {
    open spec fn region_slots(&self) -> Seq<Option<Region>> {
        self@.regions
    }

    open spec fn can_show_region(&self, len: int, x: u16, y: u16, width: u32, height: u32) -> bool {
        self@.show_region_fits(len, x, y, width, height)
    }

    open spec fn can_show_regions(&self, len: int) -> bool {
        self@.regions_fit(len)
    }

    open spec fn region_steps(&self, buffer: Seq<u8>, x: u16, y: u16, width: u32, height: u32) -> Seq<Op> {
        self@.show_region_ops(buffer, x, y, width, height)
    }

    open spec fn regions_steps(&self, buffer: Seq<u8>) -> Seq<Op> {
        self@.show_regions_ops(buffer, 10)
    }

    /// Updates one rectangle of the display from a frame buffer laid out `width` pixels
    /// wide: the address window, then each row of the rectangle in pieces of 32 bytes.
    fn show_region(&self, buffer: &[u8], top_left_x: u16, top_left_y: u16, width: u32, height: u32) -> (ops: Vec<BusOp>)
        ensures
            ops_view(ops@) == self@.show_region_ops(buffer@, top_left_x, top_left_y, width, height),
            writes_fit(ops_view(ops@)),
            transmitted(ops_view(ops@)) == self@.window_bytes(
                top_left_x,
                top_left_y,
                range_end(top_left_x, width),
                range_end(top_left_y, height),
            ) + seq![Commands::RamWr.code()] + rows_bytes(
                buffer@,
                self@.width as int,
                top_left_x as int,
                width as int,
                top_left_y as int,
                row_count(top_left_y, range_end(top_left_y, height)),
            ),
            transmitted(ops_view(ops@)).len() == 12 + 2 * width * row_count(
                top_left_y,
                range_end(top_left_y, height),
            ),
            forall|r: int, k: int|
                0 <= r < row_count(top_left_y, range_end(top_left_y, height)) && 0 <= k < 2 * width
                    ==> #[trigger] row_byte(transmitted(ops_view(ops@)).skip(12), width as int, r, k) == buffer@[((
                top_left_y + r) * self@.width + top_left_x) * 2 + k],
            cs_after(ops_view(ops@), true),
    {
        let mut ops: Vec<BusOp> = Vec::new();
        self.push_region(&mut ops, buffer, top_left_x, top_left_y, width, height);
        assert(ops_view(ops@) =~= self@.show_region_ops(buffer@, top_left_x, top_left_y, width, height));
        proof {
            lemma_show_region(self@, buffer@, top_left_x, top_left_y, width, height);
            lemma_show_region_rows(self@, buffer@, top_left_x, top_left_y, width, height);
        }
        proof {
            lemma_cs_drawing(self@, buffer@, seq![], seq![]);
        }
        ops
    }

    /// Remembers a region in the first free slot; fails when all slots are taken.
    fn store_region(&mut self, region: Region) -> (r: Result<(), ()>)
        ensures
            r is Ok <==> has_free_slot(old(self)@.regions),
            r is Ok ==> stored_in_first_free(old(self)@.regions, final(self)@.regions, region),
            r is Ok ==> final(self)@ == (DisplayState { regions: final(self)@.regions, ..old(self)@ }),
            r is Err ==> final(self)@ == old(self)@,
    {
        let mut i: usize = 0;
        while i < REGION_SLOTS
            invariant
                i <= 10,
                self@ == old(self)@,
                forall|j: int| 0 <= j < i ==> self.regions@[j] is Some,
            decreases 10 - i,
        {
            if self.regions[i].is_none() {
                let ghost before = self.regions@;
                self.regions[i] = Some(region);
                assert(self.regions@ =~= before.update(i as int, Some(region)));
                assert(before[i as int] is None);
                assert(has_free_slot(before));
                return Ok(());
            }
            i = i + 1;
        }
        assert(!has_free_slot(self.regions@));
        Err(())
    }

    /// Remembers the region with the given corner and size; see `store_region`.
    fn store_region_from_params(&mut self, x: u16, y: u16, width: u32, height: u32) -> (r: Result<(), ()>)
        ensures
            r is Ok <==> has_free_slot(old(self)@.regions),
            r is Ok ==> stored_in_first_free(
                old(self)@.regions,
                final(self)@.regions,
                Region { x, y, width, height },
            ),
            r is Ok ==> final(self)@ == (DisplayState { regions: final(self)@.regions, ..old(self)@ }),
            r is Err ==> final(self)@ == old(self)@,
    {
        let region = Region { x, y, width, height };
        self.store_region(region)
    }

    /// The region slots.
    fn get_regions(&self) -> (slots: &[Option<Region>])
        ensures
            slots@ == self@.regions,
    {
        self.regions.as_slice()
    }

    /// Forgets every remembered region.
    fn clear_regions(&mut self)
        ensures
            final(self)@ == (DisplayState { regions: Seq::new(10, |i: int| None), ..old(self)@ }),
    {
        self.regions = [None; 10];
        assert(self.regions@ =~= Seq::new(10, |i: int| None::<Region>));
    }

    /// Updates every remembered region of the display from a frame buffer, slot by slot.
    fn show_regions(&self, buffer: &[u8]) -> (ops: Vec<BusOp>)
        ensures
            ops_view(ops@) == self@.show_regions_ops(buffer@, 10),
            writes_fit(ops_view(ops@)),
            cs_after(ops_view(ops@), true),
    {
        let mut ops: Vec<BusOp> = Vec::new();
        let mut i: usize = 0;
        while i < REGION_SLOTS
            invariant
                i <= 10,
                self@.regions_fit(buffer@.len() as int),
                ops_view(ops@) == self@.show_regions_ops(buffer@, i as nat),
                writes_fit(ops_view(ops@)),
            decreases 10 - i,
        {
            let ghost before = ops_view(ops@);
            if let Some(region) = self.regions[i] {
                assert(self@.regions[i as int] is Some);
                self.push_region(&mut ops, buffer, region.x, region.y, region.width, region.height);
                proof {
                    lemma_show_region(self@, buffer@, region.x, region.y, region.width, region.height);
                    lemma_join(before, self@.show_region_ops(buffer@, region.x, region.y, region.width, region.height));
                }
            }
            i = i + 1;
            assert(ops_view(ops@) =~= self@.show_regions_ops(buffer@, i as nat));
        }
        proof {
            lemma_cs_drawing(self@, buffer@, seq![], seq![]);
        }
        ops
    }

    /// Forgets the remembered regions once they were shown: on `Ok` the slots are cleared,
    /// on `Err` nothing changes; the outcome is passed on.
    fn show_regions_and_clear(&mut self, shown: Result<(), ()>) -> (r: Result<(), ()>)
        ensures
            r == shown,
            shown is Ok ==> final(self)@ == (DisplayState { regions: Seq::new(10, |i: int| None), ..old(self)@ }),
            shown is Err ==> final(self)@ == old(self)@,
    {
        if shown.is_ok() {
            self.clear_regions();
        }
        shown
    }
}

proof fn lemma_join(a: Seq<Op>, b: Seq<Op>)
    requires
        writes_fit(a),
        writes_fit(b),
    ensures
        writes_fit(a + b),
        transmitted(a + b) == transmitted(a) + transmitted(b),
{
    crate::bus::lemma_writes_fit_concat(a, b);
    crate::bus::lemma_transmitted_concat(a, b);
}

proof fn lemma_shifted_bytes(st: DisplayState, sx: u16, sy: u16, ex: u16, ey: u16)
    requires
        st.window_fits(sx, sy, ex, ey),
    ensures
        st.column_shift() == column_offset(st),
        st.row_shift() == row_offset_of(st),
        be_bytes((sx + st.column_shift()) as u16) == big_endian(sx + column_offset(st)),
        be_bytes((ex + st.column_shift()) as u16) == big_endian(ex + column_offset(st)),
        be_bytes((sy + st.row_shift()) as u16) == big_endian(sy + row_offset_of(st)),
        be_bytes((ey + st.row_shift()) as u16) == big_endian(ey + row_offset_of(st)),
{
    assert(st.orientation.swaps_axes() == is_landscape(st.orientation));
}

/// Setting the address window sends the column command with the shifted start and end
/// columns, the row command with the shifted start and end rows, then memory write.
pub proof fn lemma_window(st: DisplayState, sx: u16, sy: u16, ex: u16, ey: u16)
    requires
        st.window_fits(sx, sy, ex, ey),
    ensures
        writes_fit(st.window_ops(sx, sy, ex, ey)),
        transmitted(st.window_ops(sx, sy, ex, ey)) == st.window_bytes(sx, sy, ex, ey),
{
    broadcast use crate::bus::group_bus_laws;

    lemma_shifted_bytes(st, sx, sy, ex, ey);
    assert(transmitted(command_ops(Commands::CaSet.code(), seq![])) =~= seq![Commands::CaSet.code()]);
    assert(transmitted(command_ops(Commands::RaSet.code(), seq![])) =~= seq![Commands::RaSet.code()]);
    assert(transmitted(command_ops(0x2Cu8, seq![])) =~= seq![0x2Cu8]);
    assert(transmitted(st.window_ops(sx, sy, ex, ey)) =~= st.window_bytes(sx, sy, ex, ey));
}

/// Starting a memory write sends the window's bytes, then the memory-write opcode.
pub proof fn lemma_draw_start(st: DisplayState, sx: u16, sy: u16, ex: u16, ey: u16)
    requires
        st.window_fits(sx, sy, ex, ey),
    ensures
        writes_fit(st.draw_start_ops(sx, sy, ex, ey)),
        transmitted(st.draw_start_ops(sx, sy, ex, ey)) == st.window_bytes(sx, sy, ex, ey) + seq![
            Commands::RamWr.code(),
        ],
{
    broadcast use crate::bus::group_bus_laws;

    lemma_window(st, sx, sy, ex, ey);
    assert(transmitted(command_ops(Commands::RamWr.code(), seq![])) =~= seq![Commands::RamWr.code()]);
    assert(transmitted(st.draw_start_ops(sx, sy, ex, ey)) =~= st.window_bytes(sx, sy, ex, ey) + seq![
        Commands::RamWr.code(),
    ]);
}

/// Every transfer of the start-up sequence fits the driver's buffers.
pub proof fn lemma_init_fits(st: DisplayState)
    ensures
        writes_fit(st.init_ops()),
{
    broadcast use crate::bus::group_bus_laws;

    crate::bus::lemma_no_writes(st.hard_reset_ops());
    crate::bus::lemma_no_writes(seq![Op::SetBlk(false), Op::DelayUs(10_000), Op::SetBlk(true)]);
    crate::bus::lemma_no_writes(Seq::<Op>::empty());
    assert(writes_fit(st.reset_ops()));
    assert(writes_fit(wake_ops()));
    assert(writes_fit(st.setup_ops()));
    assert(writes_fit(display_on_ops()));
}

/// Every pixel word is sent in transfers that fit the buffers.
pub proof fn lemma_words_fit(colors: Seq<u16>)
    ensures
        writes_fit(words_ops(colors)),
    decreases colors.len(),
{
    broadcast use crate::bus::group_bus_laws;

    if colors.len() == 0 {
        crate::bus::lemma_no_writes(Seq::<Op>::empty());
    } else {
        lemma_words_fit(colors.drop_last());
    }
}

proof fn lemma_color_runs(a: nat, b: nat, color: u16)
    ensures
        color_run(a, color) + color_run(b, color) == color_run(a + b, color),
{
    assert forall|k: int| 0 <= k < 2 * (a + b) implies #[trigger] (color_run(a, color) + color_run(b, color))[k]
        == color_run(a + b, color)[k] by {
        if k >= 2 * a {
            assert((k - 2 * a) % 2 == k % 2);
        }
    }
    assert(color_run(a, color) + color_run(b, color) =~= color_run(a + b, color));
}

proof fn lemma_chunk_ops(p: Seq<u8>)
    requires
        p.len() == 240,
    ensures
        writes_fit(chunk_ops(p)),
        transmitted(chunk_ops(p)) == p,
{
    broadcast use crate::bus::group_bus_laws;

    let a = seq![Op::SetCs(true), Op::SetDc(true), Op::SetCs(false)];
    let w = seq![Op::Write(p)];
    let z = seq![Op::SetCs(true)];
    crate::bus::lemma_no_writes(a);
    assert(chunk_ops(p) =~= a + w + z);
    assert(transmitted(chunk_ops(p)) =~= p);
}

proof fn lemma_repeat_chunks(color: u16, n: nat)
    ensures
        writes_fit(repeat_ops(chunk_ops(color_run(120, color)), n)),
        transmitted(repeat_ops(chunk_ops(color_run(120, color)), n)) == color_run(120 * n, color),
    decreases n,
{
    broadcast use crate::bus::group_bus_laws;

    if n == 0 {
        crate::bus::lemma_no_writes(Seq::<Op>::empty());
        assert(color_run(0, color) =~= Seq::<u8>::empty());
    } else {
        lemma_repeat_chunks(color, (n - 1) as nat);
        lemma_chunk_ops(color_run(120, color));
        lemma_color_runs(120 * (n - 1) as nat, 120, color);
        assert(120 * (n - 1) as nat + 120 == 120 * n);
    }
}

/// Clearing the screen sends the window, the memory-write opcode, then exactly
/// `width * height` pixels of the colour.
pub proof fn lemma_clear_screen(st: DisplayState, color: u16)
    requires
        st.clear_screen_fits(),
    ensures
        writes_fit(st.clear_screen_ops(color)),
        transmitted(st.clear_screen_ops(color)) == st.window_bytes(0, 0, st.clear_end_x(), st.clear_end_y()) + seq![
            Commands::RamWr.code(),
        ] + color_run((st.width * st.height) as nat, color),
{
    broadcast use crate::bus::group_bus_laws;

    let total = st.width * st.height;
    let full = (total / 120) as nat;
    let rest = (total % 120) as nat;
    lemma_draw_start(st, 0, 0, st.clear_end_x(), st.clear_end_y());
    lemma_repeat_chunks(color, full);
    let tail = if total % 120 > 0 {
        data_ops(color_run(rest, color))
    } else {
        seq![]
    };
    if total % 120 > 0 {
        assert(transmitted(tail) == color_run(rest, color));
    } else {
        crate::bus::lemma_no_writes(tail);
        assert(color_run(rest, color) =~= Seq::<u8>::empty());
    }
    lemma_color_runs(120 * full, rest, color);
    assert(120 * full + rest == total);
    let start = st.draw_start_ops(0, 0, st.clear_end_x(), st.clear_end_y());
    let mid = repeat_ops(chunk_ops(color_run(120, color)), full);
    assert(st.clear_screen_ops(color) == start + mid + tail);
    assert(transmitted(st.clear_screen_ops(color)) =~= st.window_bytes(0, 0, st.clear_end_x(), st.clear_end_y())
        + seq![Commands::RamWr.code()] + color_run(total as nat, color));
}

proof fn lemma_stream_writes(d: Seq<u8>)
    ensures
        writes_fit(stream_writes(d)),
        transmitted(stream_writes(d)) == d,
    decreases d.len(),
{
    broadcast use crate::bus::group_bus_laws;

    if d.len() >= 240 {
        lemma_stream_writes(d.skip(240));
        assert(d.take(240) + d.skip(240) =~= d);
    } else {
        crate::bus::lemma_data_writes(d);
    }
}

/// Showing a buffer sends the fixed window and memory-write opcodes, then the whole buffer.
pub proof fn lemma_show(st: DisplayState, buffer: Seq<u8>)
    ensures
        writes_fit(st.show_ops(buffer)),
        transmitted(st.show_ops(buffer)) == seq![Commands::CaSet.code(), 0x00u8, 0x00u8, 0x00u8, 0xEFu8] + seq![
            Commands::RaSet.code(),
            0x00u8,
            0x00u8,
            0x00u8,
            0xEFu8,
        ] + seq![Commands::RamWr.code()] + buffer,
{
    broadcast use crate::bus::group_bus_laws;

    lemma_stream_writes(buffer);
    let sel = seq![Op::SetCs(true), Op::SetDc(true), Op::SetCs(false)];
    crate::bus::lemma_no_writes(sel);
    assert(transmitted(command_ops(Commands::CaSet.code(), seq![])) =~= seq![Commands::CaSet.code()]);
    assert(transmitted(command_ops(Commands::RaSet.code(), seq![])) =~= seq![Commands::RaSet.code()]);
    assert(transmitted(command_ops(Commands::RamWr.code(), seq![])) =~= seq![Commands::RamWr.code()]);
    assert(transmitted(st.show_ops(buffer)) =~= seq![Commands::CaSet.code(), 0x00u8, 0x00u8, 0x00u8, 0xEFu8]
        + seq![Commands::RaSet.code(), 0x00u8, 0x00u8, 0x00u8, 0xEFu8] + seq![Commands::RamWr.code()] + buffer);
}

proof fn lemma_rows(buffer: Seq<u8>, bw: int, x: int, w: int, first: int, count: nat)
    ensures
        writes_fit(rows_ops(buffer, bw, x, w, first, count)),
        transmitted(rows_ops(buffer, bw, x, w, first, count)) == rows_bytes(buffer, bw, x, w, first, count),
    decreases count,
{
    broadcast use crate::bus::group_bus_laws;

    if count == 0 {
        crate::bus::lemma_no_writes(Seq::<Op>::empty());
    } else {
        lemma_rows(buffer, bw, x, w, first, (count - 1) as nat);
    }
}

/// Showing a rectangle sends the window around it, the memory-write opcode, then the
/// rectangle's rows from the buffer, top to bottom.
pub proof fn lemma_show_region(st: DisplayState, buffer: Seq<u8>, x: u16, y: u16, w: u32, h: u32)
    requires
        st.show_region_fits(buffer.len() as int, x, y, w, h),
    ensures
        writes_fit(st.show_region_ops(buffer, x, y, w, h)),
        transmitted(st.show_region_ops(buffer, x, y, w, h)) == st.window_bytes(
            x,
            y,
            range_end(x, w),
            range_end(y, h),
        ) + seq![Commands::RamWr.code()] + rows_bytes(
            buffer,
            st.width as int,
            x as int,
            w as int,
            y as int,
            row_count(y, range_end(y, h)),
        ),
{
    lemma_draw_start(st, x, y, range_end(x, w), range_end(y, h));
    lemma_rows(buffer, st.width as int, x as int, w as int, y as int, row_count(y, range_end(y, h)));
    lemma_join(
        st.draw_start_ops(x, y, range_end(x, w), range_end(y, h)),
        rows_ops(buffer, st.width as int, x as int, w as int, y as int, row_count(y, range_end(y, h))),
    );
}


/// Setting the address window, and starting a memory write, leave the chip deselected.
pub proof fn lemma_cs_window(st: DisplayState, sx: u16, sy: u16, ex: u16, ey: u16)
    ensures
        cs_after(st.window_ops(sx, sy, ex, ey), true),
        cs_after(st.draw_start_ops(sx, sy, ex, ey), true),
{
    broadcast use crate::bus::group_bus_laws;

}

proof fn lemma_cs_words(colors: Seq<u16>)
    ensures
        cs_after(words_ops(colors), true),
    decreases colors.len(),
{
    broadcast use crate::bus::group_bus_laws;

    if colors.len() > 0 {
        lemma_cs_words(colors.drop_last());
    }
}

proof fn lemma_cs_rows(buffer: Seq<u8>, bw: int, x: int, w: int, first: int, count: nat)
    ensures
        cs_after(rows_ops(buffer, bw, x, w, first, count), true),
    decreases count,
{
    broadcast use crate::bus::group_bus_laws;

    if count > 0 {
        lemma_cs_rows(buffer, bw, x, w, first, (count - 1) as nat);
    }
}

proof fn lemma_cs_repeat(p: Seq<u8>, n: nat)
    ensures
        cs_after(repeat_ops(chunk_ops(p), n), true),
    decreases n,
{
    broadcast use crate::bus::group_bus_laws;

    if n > 0 {
        lemma_cs_repeat(p, (n - 1) as nat);
        assert(chunk_ops(p).last() == Op::SetCs(true));
    }
}

proof fn lemma_cs_pins(a: Seq<Op>, level: bool)
    requires
        forall|i: int| 0 <= i < a.len() ==> !(#[trigger] a[i] is SetCs),
    ensures
        cs_after(a, level) == level,
    decreases a.len(),
{
    if a.len() > 0 {
        let b = a.drop_last();
        assert forall|i: int| 0 <= i < b.len() implies !(#[trigger] b[i] is SetCs) by {
            assert(b[i] == a[i]);
        }
        lemma_cs_pins(b, level);
        assert(!(a[a.len() - 1] is SetCs));
    }
}

/// Every operation of the driver leaves the chip deselected once its steps are done.
#[verifier::rlimit(40)]
pub proof fn lemma_cs_released(st: DisplayState, color: u16, buffer: Seq<u8>, image: Seq<u8>, on: bool)
    ensures
        cs_after(st.hard_reset_ops(), true),
        cs_after(st.backlight_ops(on), true),
        cs_after(st.init_ops(), true),
        st.clear_screen_fits() ==> cs_after(st.clear_screen_ops(color), true),
        cs_after(st.draw_image_ops(image), true),
        cs_after(st.show_ops(buffer), true),
{
    broadcast use crate::bus::group_bus_laws;

    lemma_cs_pins(st.hard_reset_ops(), true);
    lemma_cs_pins(st.backlight_ops(on), true);
    lemma_cs_pins(seq![Op::SetBlk(false), Op::DelayUs(10_000), Op::SetBlk(true)], true);
    lemma_cs_pins(Seq::<Op>::empty(), true);
    assert(cs_after(st.reset_ops(), true));
    lemma_cs_window(st, 0, 0, st.clear_end_x(), st.clear_end_y());
    lemma_cs_window(st, 0, 0, (st.width as u16 - 1) as u16, (st.height as u16 - 1) as u16);
    lemma_cs_repeat(color_run(120, color), (st.width * st.height / 120) as nat);
    assert(st.show_ops(buffer).last() == Op::SetCs(true));
}


/// Writing pixels and showing rectangles leave the chip deselected.
pub proof fn lemma_cs_drawing(st: DisplayState, buffer: Seq<u8>, pixels: Seq<PixelData>, colors: Seq<u16>)
    ensures
        forall|x: u16, y: u16, c: u16| #[trigger] cs_after(st.write_pixel_ops(x, y, c), true),
        forall|sx: u16, sy: u16, ex: u16, ey: u16| #[trigger] cs_after(st.write_pixels_ops(sx, sy, ex, ey, colors), true),
        forall|x: u16, y: u16, w: u32, h: u32| #[trigger] cs_after(st.show_region_ops(buffer, x, y, w, h), true),
        forall|n: nat| n <= st.regions.len() ==> #[trigger] cs_after(st.show_regions_ops(buffer, n), true),
        cs_after(st.draw_iter_ops(pixels), true),
{
    broadcast use crate::bus::group_bus_laws;

    assert forall|x: u16, y: u16, c: u16| #[trigger] cs_after(st.write_pixel_ops(x, y, c), true) by {
        lemma_cs_window(st, x, y, x, y);
    }
    assert forall|sx: u16, sy: u16, ex: u16, ey: u16| #[trigger] cs_after(st.write_pixels_ops(sx, sy, ex, ey, colors), true) by {
        lemma_cs_window(st, sx, sy, ex, ey);
        lemma_cs_words(colors);
    }
    assert forall|x: u16, y: u16, w: u32, h: u32| #[trigger] cs_after(st.show_region_ops(buffer, x, y, w, h), true) by {
        lemma_cs_window(st, x, y, range_end(x, w), range_end(y, h));
        lemma_cs_rows(buffer, st.width as int, x as int, w as int, y as int, row_count(y, range_end(y, h)));
    }
    assert forall|n: nat| n <= st.regions.len() implies #[trigger] cs_after(st.show_regions_ops(buffer, n), true) by {
        lemma_cs_regions(st, buffer, n);
    }
    lemma_cs_pixels(st, pixels);
}

proof fn lemma_cs_regions(st: DisplayState, buffer: Seq<u8>, n: nat)
    ensures
        cs_after(st.show_regions_ops(buffer, n), true),
    decreases n,
{
    broadcast use crate::bus::group_bus_laws;

    if n > 0 {
        lemma_cs_regions(st, buffer, (n - 1) as nat);
        if let Some(r) = st.regions[n - 1] {
            lemma_cs_window(st, r.x, r.y, range_end(r.x, r.width), range_end(r.y, r.height));
            lemma_cs_rows(
                buffer,
                st.width as int,
                r.x as int,
                r.width as int,
                r.y as int,
                row_count(r.y, range_end(r.y, r.height)),
            );
        } else {
            lemma_cs_pins(Seq::<Op>::empty(), true);
        }
    } else {
        lemma_cs_pins(Seq::<Op>::empty(), true);
    }
}

proof fn lemma_cs_pixels(st: DisplayState, pixels: Seq<PixelData>)
    ensures
        cs_after(st.draw_iter_ops(pixels), true),
    decreases pixels.len(),
{
    broadcast use crate::bus::group_bus_laws;

    lemma_cs_pins(Seq::<Op>::empty(), true);
    if pixels.len() > 0 {
        lemma_cs_pixels(st, pixels.drop_last());
        let p = pixels.last();
        if in_frame(p, st.width, st.height) {
            lemma_cs_window(st, p.x as u16, p.y as u16, p.x as u16, p.y as u16);
        }
    }
}


/// A successful store keeps every region already remembered, in its slot, and the new
/// region is among the slots.
pub proof fn lemma_store_keeps_regions(before: Seq<Option<Region>>, after: Seq<Option<Region>>, region: Region)
    requires
        stored_in_first_free(before, after, region),
    ensures
        after.len() == before.len(),
        after.contains(Some(region)),
        forall|j: int| 0 <= j < before.len() && (#[trigger] before[j]) is Some ==> after[j] == before[j],
{
    let i = choose|i: int|
        0 <= i < before.len() && #[trigger] before[i] is None && (forall|j: int| 0 <= j < i ==> before[j] is Some)
            && after == before.update(i, Some(region));
    assert(after[i] == Some(region));
}

/// After the regions are forgotten, every slot is free, so the next store succeeds.
pub proof fn lemma_cleared_slots_free()
    ensures
        has_free_slot(Seq::new(10, |i: int| None::<Region>)),
{
    let s = Seq::new(10, |i: int| None::<Region>);
    assert(s[0] is None);
}


/// The opcodes of setting the address window.
pub open spec fn window_opcodes() -> Seq<u8> {
    seq![Commands::CaSet.code(), Commands::RaSet.code(), 0x2Cu8]
}

proof fn lemma_append(a: Seq<Op>, b: Seq<Op>, level: bool)
    ensures
        dc_after(a + b, level) == dc_after(b, dc_after(a, level)),
        sent_in_mode(a + b, level, false) == sent_in_mode(a, level, false) + sent_in_mode(b, dc_after(a, level), false),
        sent_in_mode(a + b, level, true) == sent_in_mode(a, level, true) + sent_in_mode(b, dc_after(a, level), true),
{
    crate::bus::lemma_dc_concat(a, b, level);
    crate::bus::lemma_sent_in_mode_concat(a, b, level, false);
    crate::bus::lemma_sent_in_mode_concat(a, b, level, true);
}

proof fn lemma_data_step(d: Seq<u8>, level: bool)
    ensures
        dc_after(data_ops(d), level),
        sent_in_mode(data_ops(d), level, false) == Seq::<u8>::empty(),
        sent_in_mode(data_ops(d), level, true) == d,
{
    crate::bus::lemma_mode_data(d, level);
}

proof fn lemma_opcode_step(c: u8, level: bool)
    ensures
        !dc_after(command_ops(c, seq![]), level),
        sent_in_mode(command_ops(c, seq![]), level, false) == seq![c],
        sent_in_mode(command_ops(c, seq![]), level, true) == Seq::<u8>::empty(),
{
    crate::bus::lemma_mode_command(c, seq![], level);
}

proof fn lemma_data_mode_step(level: bool)
    ensures
        dc_after(seq![Op::SetDc(true)], level),
        sent_in_mode(seq![Op::SetDc(true)], level, false) == Seq::<u8>::empty(),
        sent_in_mode(seq![Op::SetDc(true)], level, true) == Seq::<u8>::empty(),
{
    crate::bus::lemma_mode_single_step(Op::SetDc(true), level, false);
    crate::bus::lemma_mode_single_step(Op::SetDc(true), level, true);
}

/// Setting the address window sends its three opcodes in command mode and the shifted
/// coordinates in data mode, and leaves the line in command mode; starting a memory write
/// adds its opcode and leaves the line in data mode.
pub proof fn lemma_window_modes(st: DisplayState, sx: u16, sy: u16, ex: u16, ey: u16, level: bool)
    requires
        st.window_fits(sx, sy, ex, ey),
    ensures
        sent_in_mode(st.window_ops(sx, sy, ex, ey), level, false) == window_opcodes(),
        sent_in_mode(st.window_ops(sx, sy, ex, ey), level, true) == st.window_params(sx, sy, ex, ey),
        !dc_after(st.window_ops(sx, sy, ex, ey), level),
        sent_in_mode(st.draw_start_ops(sx, sy, ex, ey), level, false) == window_opcodes() + seq![
            Commands::RamWr.code(),
        ],
        sent_in_mode(st.draw_start_ops(sx, sy, ex, ey), level, true) == st.window_params(sx, sy, ex, ey),
        dc_after(st.draw_start_ops(sx, sy, ex, ey), level),
{
    lemma_shifted_bytes(st, sx, sy, ex, ey);
    let c = st.column_shift();
    let r = st.row_shift();
    let p1 = command_ops(Commands::CaSet.code(), seq![]);
    let p2 = seq![Op::SetDc(true)];
    let p3 = data_ops(be_bytes((sx + c) as u16));
    let p4 = data_ops(be_bytes((ex + c) as u16));
    let p5 = command_ops(Commands::RaSet.code(), seq![]);
    let p6 = seq![Op::SetDc(true)];
    let p7 = data_ops(be_bytes((sy + r) as u16));
    let p8 = data_ops(be_bytes((ey + r) as u16));
    let p9 = command_ops(0x2Cu8, seq![]);
    let w2 = p1 + p2;
    let w3 = w2 + p3;
    let w4 = w3 + p4;
    let w5 = w4 + p5;
    let w6 = w5 + p6;
    let w7 = w6 + p7;
    let w8 = w7 + p8;
    let w9 = w8 + p9;
    assert(st.window_ops(sx, sy, ex, ey) == w9);
    lemma_opcode_step(Commands::CaSet.code(), level);
    lemma_data_mode_step(false);
    lemma_append(p1, p2, level);
    lemma_data_step(be_bytes((sx + c) as u16), true);
    lemma_append(w2, p3, level);
    lemma_data_step(be_bytes((ex + c) as u16), true);
    lemma_append(w3, p4, level);
    lemma_opcode_step(Commands::RaSet.code(), true);
    lemma_append(w4, p5, level);
    lemma_append(w5, p6, level);
    lemma_data_step(be_bytes((sy + r) as u16), true);
    lemma_append(w6, p7, level);
    lemma_data_step(be_bytes((ey + r) as u16), true);
    lemma_append(w7, p8, level);
    lemma_opcode_step(0x2Cu8, true);
    lemma_append(w8, p9, level);
    let e = Seq::<u8>::empty();
    assert(sent_in_mode(w9, level, false) =~= window_opcodes());
    assert(sent_in_mode(w9, level, true) =~= st.window_params(sx, sy, ex, ey));
    let q1 = command_ops(Commands::RamWr.code(), seq![]);
    lemma_opcode_step(Commands::RamWr.code(), false);
    lemma_append(w9, q1, level);
    lemma_append(w9 + q1, p2, level);
    assert(st.draw_start_ops(sx, sy, ex, ey) == w9 + q1 + p2);
    assert(sent_in_mode(w9 + q1 + p2, level, false) =~= window_opcodes() + seq![Commands::RamWr.code()]);
    assert(sent_in_mode(w9 + q1 + p2, level, true) =~= st.window_params(sx, sy, ex, ey));
}

proof fn lemma_repeat_modes(p: Seq<u8>, n: nat)
    ensures
        sent_in_mode(repeat_ops(chunk_ops(p), n), true, false) == Seq::<u8>::empty(),
        dc_after(repeat_ops(chunk_ops(p), n), true),
    decreases n,
{
    broadcast use crate::bus::group_mode_laws;

    if n > 0 {
        lemma_repeat_modes(p, (n - 1) as nat);
        assert(chunk_ops(p) == seq![Op::SetCs(true)] + seq![Op::SetDc(true)] + seq![Op::SetCs(false)] + seq![
            Op::Write(p),
        ] + seq![Op::SetCs(true)]);
        assert(Seq::<u8>::empty() + Seq::<u8>::empty() =~= Seq::<u8>::empty());
    } else {
        assert(repeat_ops(chunk_ops(p), 0) =~= Seq::<Op>::empty());
    }
}

proof fn lemma_repeat_data(p: Seq<u8>, n: nat)
    ensures
        sent_in_mode(repeat_ops(chunk_ops(p), n), true, true) == transmitted(repeat_ops(chunk_ops(p), n)),
    decreases n,
{
    broadcast use crate::bus::group_mode_laws;
    broadcast use crate::bus::group_bus_laws;

    if n > 0 {
        lemma_repeat_data(p, (n - 1) as nat);
        lemma_repeat_modes(p, (n - 1) as nat);
        assert(chunk_ops(p) == seq![Op::SetCs(true)] + seq![Op::SetDc(true)] + seq![Op::SetCs(false)] + seq![
            Op::Write(p),
        ] + seq![Op::SetCs(true)]);
        assert(Seq::<u8>::empty() + Seq::<u8>::empty() + Seq::<u8>::empty() + p + Seq::<u8>::empty() =~= p);
    } else {
        assert(repeat_ops(chunk_ops(p), 0) =~= Seq::<Op>::empty());
    }
}

/// Every opcode goes out in command mode and every parameter and pixel in data mode:
/// writing a pixel sends the window opcodes and memory write as commands, and the
/// coordinates and the colour as data; clearing the screen sends the same opcodes as
/// commands, and the coordinates and every pixel as data.
pub proof fn lemma_command_and_data_modes(st: DisplayState, x: u16, y: u16, color: u16, level: bool)
    requires
        st.window_fits(x, y, x, y),
    ensures
        sent_in_mode(st.write_pixel_ops(x, y, color), level, false) == window_opcodes() + seq![
            Commands::RamWr.code(),
        ],
        sent_in_mode(st.write_pixel_ops(x, y, color), level, true) == st.window_params(x, y, x, y) + be_bytes(
            color,
        ),
        st.clear_screen_fits() ==> sent_in_mode(st.clear_screen_ops(color), level, false) == window_opcodes()
            + seq![Commands::RamWr.code()],
        st.clear_screen_fits() ==> sent_in_mode(st.clear_screen_ops(color), level, true) == st.window_params(0, 0, st.clear_end_x(), st.clear_end_y()) + color_run((st.width * st.height) as nat, color),
{
    lemma_window_modes(st, x, y, x, y, level);
    lemma_data_step(be_bytes(color), true);
    lemma_append(st.draw_start_ops(x, y, x, y), data_ops(be_bytes(color)), level);
    assert(sent_in_mode(st.write_pixel_ops(x, y, color), level, true) =~= st.window_params(x, y, x, y) + be_bytes(
        color,
    ));
    assert(sent_in_mode(st.write_pixel_ops(x, y, color), level, false) =~= window_opcodes() + seq![
        Commands::RamWr.code(),
    ]);
    if st.clear_screen_fits() {
        let total = st.width * st.height;
        let full = (total / 120) as nat;
        let rest = (total % 120) as nat;
        let start = st.draw_start_ops(0, 0, st.clear_end_x(), st.clear_end_y());
        let mid = repeat_ops(chunk_ops(color_run(120, color)), full);
        let tail = if total % 120 > 0 {
            data_ops(color_run(rest, color))
        } else {
            seq![]
        };
        lemma_window_modes(st, 0, 0, st.clear_end_x(), st.clear_end_y(), level);
        lemma_repeat_modes(color_run(120, color), full);
        lemma_repeat_data(color_run(120, color), full);
        lemma_repeat_chunks(color, full);
        lemma_clear_screen_parts(color, total);
        assert(st.clear_screen_ops(color) == start + mid + tail);
        lemma_append(start, mid, level);
        lemma_append(start + mid, tail, level);
        if total % 120 > 0 {
            lemma_data_step(color_run(rest, color), true);
        } else {
            assert(tail =~= Seq::<Op>::empty());
            assert(color_run(rest, color) =~= Seq::<u8>::empty());
        }
        assert(sent_in_mode(st.clear_screen_ops(color), level, false) =~= window_opcodes() + seq![
            Commands::RamWr.code(),
        ]);
        assert(sent_in_mode(st.clear_screen_ops(color), level, true) =~= st.window_params(0, 0, st.clear_end_x(), st.clear_end_y()) + color_run(total as nat, color));
    }
}

proof fn lemma_clear_screen_parts(color: u16, total: int)
    requires
        total >= 0,
    ensures
        color_run(120 * ((total / 120) as nat), color) + color_run((total % 120) as nat, color) == color_run(
            total as nat,
            color,
        ),
{
    lemma_color_runs(120 * ((total / 120) as nat), (total % 120) as nat, color);
}


proof fn lemma_rows_modes(buffer: Seq<u8>, bw: int, x: int, w: int, first: int, count: nat)
    ensures
        dc_after(rows_ops(buffer, bw, x, w, first, count), true),
        sent_in_mode(rows_ops(buffer, bw, x, w, first, count), true, false) == Seq::<u8>::empty(),
        sent_in_mode(rows_ops(buffer, bw, x, w, first, count), true, true) == rows_bytes(
            buffer,
            bw,
            x,
            w,
            first,
            count,
        ),
    decreases count,
{
    if count > 0 {
        let m = (count - 1) as nat;
        lemma_rows_modes(buffer, bw, x, w, first, m);
        let row = row_bytes(buffer, bw, x, w, first + count - 1);
        crate::bus::lemma_mode_chunked(row, 32, true);
        lemma_append(rows_ops(buffer, bw, x, w, first, m), chunked_data_ops(row, 32), true);
        assert(Seq::<u8>::empty() + Seq::<u8>::empty() =~= Seq::<u8>::empty());
    }
}

/// Showing a rectangle sends the window opcodes and memory write as commands, and the
/// coordinates and the rectangle's rows as data; drawing an image sends the image as data.
pub proof fn lemma_region_and_image_modes(
    st: DisplayState,
    buffer: Seq<u8>,
    x: u16,
    y: u16,
    w: u32,
    h: u32,
    image: Seq<u8>,
    level: bool,
)
    requires
        st.show_region_fits(buffer.len() as int, x, y, w, h),
        st.draw_image_fits(),
    ensures
        sent_in_mode(st.show_region_ops(buffer, x, y, w, h), level, false) == window_opcodes() + seq![
            Commands::RamWr.code(),
        ],
        sent_in_mode(st.show_region_ops(buffer, x, y, w, h), level, true) == st.window_params(
            x,
            y,
            range_end(x, w),
            range_end(y, h),
        ) + rows_bytes(buffer, st.width as int, x as int, w as int, y as int, row_count(y, range_end(y, h))),
        sent_in_mode(st.draw_image_ops(image), level, false) == window_opcodes() + seq![Commands::RamWr.code()],
        sent_in_mode(st.draw_image_ops(image), level, true) == st.window_params(
            0,
            0,
            (st.width as u16 - 1) as u16,
            (st.height as u16 - 1) as u16,
        ) + image,
{
    let ex = range_end(x, w);
    let ey = range_end(y, h);
    let rows = rows_ops(buffer, st.width as int, x as int, w as int, y as int, row_count(y, ey));
    lemma_window_modes(st, x, y, ex, ey, level);
    lemma_rows_modes(buffer, st.width as int, x as int, w as int, y as int, row_count(y, ey));
    lemma_append(st.draw_start_ops(x, y, ex, ey), rows, level);
    assert(sent_in_mode(st.show_region_ops(buffer, x, y, w, h), level, false) =~= window_opcodes() + seq![
        Commands::RamWr.code(),
    ]);
    let iw = (st.width as u16 - 1) as u16;
    let ih = (st.height as u16 - 1) as u16;
    lemma_window_modes(st, 0, 0, iw, ih, level);
    crate::bus::lemma_mode_chunked(image, 32, true);
    lemma_append(st.draw_start_ops(0, 0, iw, ih), chunked_data_ops(image, 32), level);
    assert(sent_in_mode(st.draw_image_ops(image), level, false) =~= window_opcodes() + seq![Commands::RamWr.code()]);
}


/// Setting the address window sends the column command with the start and end column, the
/// row command with the start and end row, then memory write. In Landscape and
/// LandscapeSwapped the columns are shifted by the y offset and the rows by the x offset;
/// in Portrait and PortraitSwapped the columns by the x offset and the rows by the y offset.
pub proof fn lemma_window_shift_by_orientation(st: DisplayState, sx: u16, sy: u16, ex: u16, ey: u16)
    requires
        st.window_fits(sx, sy, ex, ey),
    ensures
        st.orientation == Orientation::Landscape || st.orientation == Orientation::LandscapeSwapped
            ==> transmitted(st.window_ops(sx, sy, ex, ey)) == seq![0x2Au8] + big_endian(sx + st.offset_y)
            + big_endian(ex + st.offset_y) + seq![0x2Bu8] + big_endian(sy + st.offset_x) + big_endian(
            ey + st.offset_x,
        ) + seq![0x2Cu8],
        st.orientation == Orientation::Portrait || st.orientation == Orientation::PortraitSwapped
            ==> transmitted(st.window_ops(sx, sy, ex, ey)) == seq![0x2Au8] + big_endian(sx + st.offset_x)
            + big_endian(ex + st.offset_x) + seq![0x2Bu8] + big_endian(sy + st.offset_y) + big_endian(
            ey + st.offset_y,
        ) + seq![0x2Cu8],
{
    lemma_window(st, sx, sy, ex, ey);
}

/// The bytes of colours, each high byte first, in order.
pub open spec fn colors_bytes(colors: Seq<u16>) -> Seq<u8> {
    Seq::new(
        2 * colors.len(),
        |k: int|
            if k % 2 == 0 {
                (colors[k / 2] / 256) as u8
            } else {
                (colors[k / 2] % 256) as u8
            },
    )
}

proof fn lemma_words_bytes(colors: Seq<u16>)
    ensures
        transmitted(words_ops(colors)) == colors_bytes(colors),
    decreases colors.len(),
{
    broadcast use crate::bus::group_bus_laws;

    if colors.len() == 0 {
        assert(colors_bytes(colors) =~= Seq::<u8>::empty());
    } else {
        let rest = colors.drop_last();
        lemma_words_bytes(rest);
        let c = colors.last();
        assert(transmitted(data_ops(be_bytes(c))) == be_bytes(c));
        assert forall|k: int| 0 <= k < 2 * colors.len() implies #[trigger] colors_bytes(colors)[k] == (
        colors_bytes(rest) + be_bytes(c))[k] by {
            if k < 2 * rest.len() {
                assert(colors[k / 2] == rest[k / 2]);
            } else {
                assert(k / 2 == rest.len());
            }
        }
        assert(colors_bytes(colors) =~= colors_bytes(rest) + be_bytes(c));
    }
}

/// Writing colours into a window sends the window's bytes for the rectangle from
/// `(sx, sy)` to `(ex, ey)`, memory write, then each colour high byte first, in order.
pub proof fn lemma_write_pixels_bytes(st: DisplayState, sx: u16, sy: u16, ex: u16, ey: u16, colors: Seq<u16>)
    requires
        st.window_fits(sx, sy, ex, ey),
    ensures
        transmitted(st.write_pixels_ops(sx, sy, ex, ey, colors)) == st.window_bytes(sx, sy, ex, ey) + seq![0x2Cu8]
            + colors_bytes(colors),
{
    lemma_draw_start(st, sx, sy, ex, ey);
    lemma_words_bytes(colors);
    lemma_words_fit(colors);
    lemma_join(st.draw_start_ops(sx, sy, ex, ey), words_ops(colors));
}

/// The start-up sequence sends, in order: software reset, sleep out, inversion off, the
/// scrolling definition with its six bytes, memory access control with the byte of the
/// orientation the driver holds, one zero byte, 16-bit colour mode, inversion on, normal
/// mode and display on.
pub proof fn lemma_init_bytes(st: DisplayState)
    ensures
        transmitted(st.init_ops()) == seq![
            0x01u8,
            0x11u8,
            0x20u8,
            0x33u8,
            0u8,
            0u8,
            0x14u8,
            0u8,
            0u8,
            0u8,
            0x36u8,
            match st.orientation {
                Orientation::Portrait => 0x00u8,
                Orientation::Landscape => 0x60u8,
                Orientation::PortraitSwapped => 0xC0u8,
                Orientation::LandscapeSwapped => 0xA0u8,
            },
            0x00u8,
            0x3Au8,
            0x55u8,
            0x21u8,
            0x13u8,
            0x29u8,
        ],
{
    let r = st.reset_ops();
    let w = wake_ops();
    let su = st.setup_ops();
    let d = display_on_ops();
    assert(transmitted(r) =~= Seq::<u8>::empty()) by {
        broadcast use crate::bus::group_bus_laws;

        crate::bus::lemma_no_writes(st.hard_reset_ops());
        crate::bus::lemma_no_writes(seq![Op::SetBlk(false), Op::DelayUs(10_000), Op::SetBlk(true)]);
        crate::bus::lemma_no_writes(Seq::<Op>::empty());
    }
    assert(transmitted(w) =~= seq![0x01u8, 0x11u8, 0x20u8]) by {
        broadcast use crate::bus::group_bus_laws;

    }
    assert(transmitted(su) =~= seq![
        0x33u8,
        0u8,
        0u8,
        0x14u8,
        0u8,
        0u8,
        0u8,
        0x36u8,
        st.orientation.madctl_value(),
        0x00u8,
        0x3Au8,
        0x55u8,
    ]) by {
        broadcast use crate::bus::group_bus_laws;

    }
    assert(transmitted(d) =~= seq![0x21u8, 0x13u8, 0x29u8]) by {
        broadcast use crate::bus::group_bus_laws;

    }
    crate::bus::lemma_transmitted_concat(r, w);
    crate::bus::lemma_transmitted_concat(r + w, su);
    crate::bus::lemma_transmitted_concat(r + w + su, d);
    assert(transmitted(st.init_ops()) =~= seq![
        0x01u8,
        0x11u8,
        0x20u8,
        0x33u8,
        0u8,
        0u8,
        0x14u8,
        0u8,
        0u8,
        0u8,
        0x36u8,
        st.orientation.madctl_value(),
        0x00u8,
        0x3Au8,
        0x55u8,
        0x21u8,
        0x13u8,
        0x29u8,
    ]);
}

/// Byte `k` of row `r` of pixel data sent in rows of `w` pixels.
pub open spec fn row_byte(sent: Seq<u8>, w: int, r: int, k: int) -> u8 {
    sent[2 * w * r + k]
}

proof fn lemma_rows_layout(buffer: Seq<u8>, bw: int, x: int, w: int, first: int, count: nat)
    requires
        0 <= bw,
        0 <= x,
        0 <= w,
        0 <= first,
        count == 0 || ((first + count - 1) * bw + x) * 2 + 2 * w <= buffer.len(),
    ensures
        rows_bytes(buffer, bw, x, w, first, count).len() == 2 * w * count,
        forall|r: int, k: int|
            0 <= r < count && 0 <= k < 2 * w ==> #[trigger] row_byte(rows_bytes(buffer, bw, x, w, first, count), w, r, k)
                == buffer[((first + r) * bw + x) * 2 + k],
    decreases count,
{
    if count > 0 {
        let m = (count - 1) as nat;
        assert(m == 0 || ((first + m - 1) * bw + x) * 2 + 2 * w <= buffer.len()) by {
            if m > 0 {
                assert((first + m - 1) * bw <= (first + count - 1) * bw) by (nonlinear_arith)
                    requires
                        0 <= bw,
                        m == count - 1,
                ;
            }
        }
        lemma_rows_layout(buffer, bw, x, w, first, m);
        let prev = rows_bytes(buffer, bw, x, w, first, m);
        let s = ((first + m) * bw + x) * 2;
        assert(0 <= (first + m) * bw) by (nonlinear_arith)
            requires
                0 <= bw,
                0 <= first + m,
        ;
        let row = row_bytes(buffer, bw, x, w, first + count - 1);
        assert(row == buffer.subrange(s, s + 2 * w));
        let all = rows_bytes(buffer, bw, x, w, first, count);
        assert(all == prev + row);
        assert(2 * w * m + 2 * w == 2 * w * count) by (nonlinear_arith)
            requires
                m == count - 1,
        ;
        assert forall|r: int, k: int| 0 <= r < count && 0 <= k < 2 * w implies #[trigger] row_byte(all, w, r, k)
            == buffer[((first + r) * bw + x) * 2 + k] by {
            if r < m {
                assert(2 * w * r + k < 2 * w * m) by (nonlinear_arith)
                    requires
                        0 <= r < m,
                        0 <= k < 2 * w,
                ;
                assert(0 <= 2 * w * r) by (nonlinear_arith)
                    requires
                        0 <= r,
                        0 <= w,
                ;
                assert(all[2 * w * r + k] == prev[2 * w * r + k]);
                assert(row_byte(prev, w, r, k) == buffer[((first + r) * bw + x) * 2 + k]);
            } else {
                assert(r == m);
                assert(all[2 * w * m + k] == row[k]);
            }
        }
    }
}

/// Showing a rectangle sends the window's bytes and memory write, then for each row `r`
/// of the window, top to bottom, the `2 * w` bytes of the buffer from
/// `((y + r) * width + x) * 2` on: every pixel of every row, `h` rows when the rows fit in
/// 16 bits.
pub proof fn lemma_show_region_rows(st: DisplayState, buffer: Seq<u8>, x: u16, y: u16, w: u32, h: u32)
    requires
        st.show_region_fits(buffer.len() as int, x, y, w, h),
    ensures
        ({
            let ey = range_end(y, h);
            let n = row_count(y, ey);
            let sent = transmitted(st.show_region_ops(buffer, x, y, w, h));
            &&& y + h - 1 <= u16::MAX ==> n == h
            &&& sent.len() == 12 + 2 * w * n
            &&& sent.take(12) == st.window_bytes(x, y, range_end(x, w), ey) + seq![0x2Cu8]
            &&& forall|r: int, k: int|
                0 <= r < n && 0 <= k < 2 * w ==> #[trigger] row_byte(sent.skip(12), w as int, r, k) == buffer[((y
                    + r) * st.width + x) * 2 + k]
        }),
{
    let ey = range_end(y, h);
    let n = row_count(y, ey);
    lemma_show_region(st, buffer, x, y, w, h);
    if n > 0 {
        assert(y + n - 1 == ey);
    }
    lemma_rows_layout(buffer, st.width as int, x as int, w as int, y as int, n);
    let rb = rows_bytes(buffer, st.width as int, x as int, w as int, y as int, n);
    let head = st.window_bytes(x, y, range_end(x, w), ey) + seq![0x2Cu8];
    assert(head.len() == 12);
    let sent = transmitted(st.show_region_ops(buffer, x, y, w, h));
    assert(sent == head + rb);
    assert(sent.take(12) =~= head);
    assert(sent.skip(12) =~= rb);
    if y + h - 1 <= u16::MAX {
        assert(ey == y + h - 1);
    }
}

/// Drawing one pixel that lies on the screen sends the window of that single pixel at
/// column `p.x`, row `p.y`, memory write, then the colour high byte first; a pixel off the
/// screen sends nothing.
pub proof fn lemma_draw_one_pixel(st: DisplayState, p: PixelData)
    ensures
        in_frame(p, st.width, st.height) && st.window_fits(p.x as u16, p.y as u16, p.x as u16, p.y as u16)
            ==> transmitted(st.draw_iter_ops(seq![p])) == st.window_bytes(
            p.x as u16,
            p.y as u16,
            p.x as u16,
            p.y as u16,
        ) + seq![0x2Cu8, (p.color / 256) as u8, (p.color % 256) as u8],
        in_frame(p, st.width, st.height) ==> st.draw_iter_ops(seq![p]) == st.write_pixel_ops(
            p.x as u16,
            p.y as u16,
            p.color,
        ),
        !in_frame(p, st.width, st.height) ==> st.draw_iter_ops(seq![p]) == Seq::<Op>::empty(),
{
    broadcast use crate::bus::group_bus_laws;

    let one = seq![p];
    assert(one.drop_last() =~= Seq::<PixelData>::empty());
    assert(one.last() == p);
    assert(st.draw_iter_ops(one.drop_last()) == Seq::<Op>::empty());
    assert(Seq::<Op>::empty() + st.draw_pixel_ops(p) =~= st.draw_pixel_ops(p));
    assert(st.draw_iter_ops(one) == st.draw_pixel_ops(p));
    if in_frame(p, st.width, st.height) && st.window_fits(p.x as u16, p.y as u16, p.x as u16, p.y as u16) {
        lemma_draw_start(st, p.x as u16, p.y as u16, p.x as u16, p.y as u16);
        assert(transmitted(st.draw_iter_ops(one)) =~= st.window_bytes(p.x as u16, p.y as u16, p.x as u16, p.y as u16)
            + seq![0x2Cu8, (p.color / 256) as u8, (p.color % 256) as u8]);
    }
}

/// Drawing one list of pixels after another takes the steps of drawing both lists at once.
pub proof fn lemma_draw_iter_concat(st: DisplayState, a: Seq<PixelData>, b: Seq<PixelData>)
    ensures
        st.draw_iter_ops(a + b) == st.draw_iter_ops(a) + st.draw_iter_ops(b),
    decreases b.len(),
{
    if b.len() == 0 {
        assert(a + b =~= a);
        assert(st.draw_iter_ops(a) + Seq::<Op>::empty() =~= st.draw_iter_ops(a));
    } else {
        lemma_draw_iter_concat(st, a, b.drop_last());
        assert((a + b).drop_last() =~= a + b.drop_last());
        assert((a + b).last() == b.last());
        assert(st.draw_iter_ops(a) + st.draw_iter_ops(b.drop_last()) + st.draw_pixel_ops(b.last()) =~= st.draw_iter_ops(
            a,
        ) + (st.draw_iter_ops(b.drop_last()) + st.draw_pixel_ops(b.last())));
    }
}


/// The bytes that drawing one pixel sends: the window of that single pixel at column `p.x`,
/// row `p.y`, memory write, then the colour high byte first; nothing for a pixel off the
/// screen.
pub open spec fn pixel_bytes(st: DisplayState, p: PixelData) -> Seq<u8> {
    if in_frame(p, st.width, st.height) {
        st.window_bytes(p.x as u16, p.y as u16, p.x as u16, p.y as u16) + seq![0x2Cu8] + big_endian(
            p.color as int,
        )
    } else {
        seq![]
    }
}

/// The bytes of each pixel, in order.
pub open spec fn pixels_bytes(st: DisplayState, pixels: Seq<PixelData>) -> Seq<u8>
    decreases pixels.len(),
{
    if pixels.len() == 0 {
        seq![]
    } else {
        pixels_bytes(st, pixels.drop_last()) + pixel_bytes(st, pixels.last())
    }
}

/// Drawing pixels sends, pixel after pixel, the single-pixel window at the pixel's own
/// column and row, memory write and the pixel's colour; pixels off the screen send nothing.
pub proof fn lemma_draw_iter_bytes(st: DisplayState, pixels: Seq<PixelData>)
    requires
        st.pixels_fit(pixels),
    ensures
        transmitted(st.draw_iter_ops(pixels)) == pixels_bytes(st, pixels),
    decreases pixels.len(),
{
    broadcast use crate::bus::group_bus_laws;

    if pixels.len() > 0 {
        let rest = pixels.drop_last();
        let p = pixels.last();
        assert(st.pixels_fit(rest)) by {
            assert forall|i: int| 0 <= i < rest.len() && in_frame(#[trigger] rest[i], st.width, st.height) implies st.window_fits(
                rest[i].x as u16,
                rest[i].y as u16,
                rest[i].x as u16,
                rest[i].y as u16,
            ) by {
                assert(rest[i] == pixels[i]);
            }
        }
        lemma_draw_iter_bytes(st, rest);
        assert(p == pixels[pixels.len() - 1]);
        lemma_draw_one_pixel(st, p);
        if in_frame(p, st.width, st.height) {
            let one = seq![p];
            assert(transmitted(st.draw_pixel_ops(p)) == pixel_bytes(st, p)) by {
                assert(one.drop_last() =~= Seq::<PixelData>::empty());
                assert(st.draw_iter_ops(one.drop_last()) == Seq::<Op>::empty());
                assert(Seq::<Op>::empty() + st.draw_pixel_ops(p) =~= st.draw_pixel_ops(p));
                assert(st.draw_iter_ops(one) == st.draw_pixel_ops(p));
                assert(seq![0x2Cu8, (p.color / 256) as u8, (p.color % 256) as u8] =~= seq![0x2Cu8] + big_endian(
                    p.color as int,
                ));
                assert(st.window_bytes(p.x as u16, p.y as u16, p.x as u16, p.y as u16) + seq![
                    0x2Cu8,
                    (p.color / 256) as u8,
                    (p.color % 256) as u8,
                ] =~= st.window_bytes(p.x as u16, p.y as u16, p.x as u16, p.y as u16) + seq![0x2Cu8] + big_endian(
                    p.color as int,
                ));
            }
        } else {
            assert(transmitted(st.draw_pixel_ops(p)) =~= pixel_bytes(st, p));
        }
    }
}

} // verus!
