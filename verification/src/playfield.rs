//! The playfield: the frame shown on a 240 x 240 display, drawn row by
//! row with each grid cell a block of pixels.

use vstd::prelude::*;
use vstd::arithmetic::div_mod::lemma_div_is_ordered;
use crate::color::{alive, dead, color_be, be_pair, live_color, dead_color};
use crate::playlife::life::is_empty;

verus! {

/// Pixels on each side of the (square) display.
pub const DISPLAY_PIXELS: usize = 240;

/// Bytes in one display row: two per pixel.
pub const ROW_BYTES: usize = 480;

/// The rows a display has received, each row its bytes, in order.
pub type ReceivedRows = Seq<Seq<u8>>;

/// A number of display frames.
pub type FrameCount = nat;

/// Trait for displays that support direct row-by-row pixel writing.
///
/// An implementation promises the model below: beginning a frame starts an
/// empty run of rows, and each row written is added to it, in order.
pub trait RowWriter {
    /// The rows the display has received since its current frame began,
    /// in order.
    spec fn received(&self) -> ReceivedRows;

    /// How many frames the display has begun.
    spec fn frames_begun(&self) -> FrameCount;

    /// Start a frame covering the whole display.
    fn begin_frame(&mut self)
        ensures
            final(self).received() == Seq::<Seq<u8>>::empty(),
            final(self).frames_begun() == old(self).frames_begun() + 1,
    ;

    /// Send the next row of pixels, two bytes per pixel.
    fn write_row(&mut self, row_bytes: &[u8])
        ensures
            final(self).received() == old(self).received().push(row_bytes@),
            final(self).frames_begun() == old(self).frames_begun(),
    ;
}

/// A grid dimension `n` (rows or columns) can be drawn: each cell is
/// `240 / n` pixels wide, and every pixel falls on a cell.
pub open spec fn fits_display(n: int) -> bool {
    &&& 0 < n <= 240
    &&& 239int / (240int / n) < n
}

/// Pixel `px` of `row` holds the two bytes of `color`.
pub open spec fn shows(row: Seq<u8>, px: int, color: [u8; 2]) -> bool {
    row[2 * px] == color[0] && row[2 * px + 1] == color[1]
}

/// The grid cell under display pixel (`px`, `py`) is alive.
pub open spec fn pixel_alive<const NR: usize, const NC: usize>(
    frame: [[u8; NC]; NR],
    px: int,
    py: int,
) -> bool {
    frame[py / (240int / NR as int)][px / (240int / NC as int)] != 0
}

/// The colour of display pixel (`px`, `py`): `on` over a live cell,
/// `off` over a dead one.
pub open spec fn pixel_color<const NR: usize, const NC: usize>(
    frame: [[u8; NC]; NR],
    px: int,
    py: int,
    on: [u8; 2],
    off: [u8; 2],
) -> [u8; 2] {
    if pixel_alive(frame, px, py) {
        on
    } else {
        off
    }
}

/// `row` is display row `py` of `frame`.
pub open spec fn is_rendered_row<const NR: usize, const NC: usize>(
    row: Seq<u8>,
    frame: [[u8; NC]; NR],
    py: int,
    on: [u8; 2],
    off: [u8; 2],
) -> bool {
    &&& row.len() == 480
    &&& forall|px: int| 0 <= px < 240 ==> #[trigger] shows(row, px, pixel_color(frame, px, py, on, off))
}

/// `row` is a display row of the single colour `color`.
pub open spec fn is_solid_row(row: Seq<u8>, color: [u8; 2]) -> bool {
    &&& row.len() == 480
    &&& forall|px: int| 0 <= px < 240 ==> #[trigger] shows(row, px, color)
}

/// The byte pair of a live cell's pixels.
pub open spec fn alive_pair() -> [u8; 2] {
    be_pair(live_color().packed())
}

/// The byte pair of a dead cell's pixels.
pub open spec fn dead_pair() -> [u8; 2] {
    be_pair(dead_color().packed())
}

proof fn lemma_cell_index(p: int, n: int)
    requires
        0 <= p < 240,
        fits_display(n),
    ensures
        0 < 240int / n,
        0 <= p / (240int / n) < n,
{
    assert(0 < 240int / n) by (nonlinear_arith)
        requires
            0 < n <= 240,
    ;
    lemma_div_is_ordered(p, 239, 240int / n);
    lemma_div_is_ordered(0, p, 240int / n);
}

/// An empty frame is drawn in the dead colour only: every pixel of every
/// row takes `off`.
pub proof fn lemma_empty_frame_is_dark<const NR: usize, const NC: usize>(
    frame: [[u8; NC]; NR],
    px: int,
    py: int,
    on: [u8; 2],
    off: [u8; 2],
)
    requires
        is_empty(frame),
        fits_display(NR as int),
        fits_display(NC as int),
        0 <= px < 240,
        0 <= py < 240,
    ensures
        pixel_color(frame, px, py, on, off) == off,
{
    lemma_cell_index(px, NC as int);
    lemma_cell_index(py, NR as int);
    assert(frame[py / (240int / NR as int)][px / (240int / NC as int)] == 0);
}

/// Whether a grid dimension `n` can be drawn on the display.
pub fn dimension_fits(n: usize) -> (ok: bool)
    ensures
        ok == fits_display(n as int),
{
    if n == 0 || n > 240 {
        return false;
    }
    let cell = 240 / n;
    proof {
        assert(0 < 240int / n as int) by (nonlinear_arith)
            requires
                0 < n <= 240,
        ;
    }
    239 / cell < n
}

/// A display row of a single colour.
pub fn solid_row(color: [u8; 2]) -> (row: [u8; 480])
    ensures
        is_solid_row(row@, color),
{
    let mut row = [0u8; 480];
    let mut i: usize = 0;
    while i < 240
        invariant
            0 <= i <= 240,
            forall|px: int| 0 <= px < i ==> #[trigger] shows(row@, px, color),
        decreases 240 - i,
    {
        let ghost before = row;
        row[i * 2] = color[0];
        row[i * 2 + 1] = color[1];
        assert forall|px: int| 0 <= px < i + 1 implies #[trigger] shows(row@, px, color) by {
            if px < i {
                assert(shows(before@, px, color));
                assert(row[2 * px] == before[2 * px]);
                assert(row[2 * px + 1] == before[2 * px + 1]);
            }
        }
        i = i + 1;
    }
    row
}

/// Display row `py` of `frame`: pixel `px` shows `on` where the cell under
/// it is alive and `off` where it is dead.
pub fn render_row<const NR: usize, const NC: usize>(
    frame: &[[u8; NC]; NR],
    py: usize,
    on: [u8; 2],
    off: [u8; 2],
) -> (row: [u8; 480])
    requires
        fits_display(NR as int),
        fits_display(NC as int),
        py < 240,
    ensures
        is_rendered_row(row@, *frame, py as int, on, off),
{
    let cell_w = 240 / NC;
    let cell_h = 240 / NR;
    proof {
        lemma_cell_index(py as int, NR as int);
    }
    let grid_row = py / cell_h;
    let line = frame[grid_row];
    let mut row_buf = [0u8; 480];
    let mut px: usize = 0;
    while px < 240
        invariant
            0 <= px <= 240,
            fits_display(NC as int),
            cell_w == 240int / NC as int,
            grid_row == (py as int) / (240int / NR as int),
            grid_row < NR,
            line == frame[grid_row as int],
            forall|p: int|
                0 <= p < px ==> #[trigger] shows(
                    row_buf@,
                    p,
                    pixel_color(*frame, p, py as int, on, off),
                ),
        decreases 240 - px,
    {
        proof {
            lemma_cell_index(px as int, NC as int);
        }
        let alive = line[px / cell_w] != 0;
        let ghost before = row_buf;
        row_buf[px * 2] = if alive { on[0] } else { off[0] };
        row_buf[px * 2 + 1] = if alive { on[1] } else { off[1] };
        assert forall|p: int| 0 <= p < px + 1 implies #[trigger] shows(
            row_buf@,
            p,
            pixel_color(*frame, p, py as int, on, off),
        ) by {
            if p < px {
                assert(shows(before@, p, pixel_color(*frame, p, py as int, on, off)));
                assert(row_buf[2 * p] == before[2 * p]);
                assert(row_buf[2 * p + 1] == before[2 * p + 1]);
            }
        }
        px = px + 1;
    }
    row_buf
}

/// The frame shown on a display, and the display it is drawn on.
pub struct Playfield<const NR: usize, const NC: usize, D> {
    display: D,
    frame: [[u8; NC]; NR],
}

impl<const NR: usize, const NC: usize, D: RowWriter> Playfield<NR, NC, D> {
    /// The grid that the playfield shows.
    pub closed spec fn shown(&self) -> [[u8; NC]; NR] {
        self.frame
    }

    /// The display the playfield draws on.
    pub closed spec fn screen(&self) -> D {
        self.display
    }

    /// The rows that the display has received, in order, since its
    /// current frame began.
    pub open spec fn rows_sent(&self) -> Seq<Seq<u8>> {
        self.screen().received()
    }

    /// Clear the display to the dead colour and start with an empty frame:
    /// one display frame of 240 rows, all of the dead colour.
    pub fn new(display: D) -> (pf: Self)
        ensures
            is_empty(pf.shown()),
            pf.screen().frames_begun() == display.frames_begun() + 1,
            pf.rows_sent().len() == 240,
            forall|py: int| 0 <= py < 240 ==> is_solid_row(#[trigger] pf.rows_sent()[py], dead_pair()),
    {
        let dark = color_be(dead());
        let row = solid_row(dark);
        let ghost old_frames = display.frames_begun();
        let mut display = display;
        display.begin_frame();
        let mut i: usize = 0;
        while i < 240
            invariant
                0 <= i <= 240,
                display.received().len() == i,
                display.frames_begun() == old_frames + 1,
                is_solid_row(row@, dead_pair()),
                forall|py: int| 0 <= py < i ==> #[trigger] display.received()[py] == row@,
            decreases 240 - i,
        {
            display.write_row(&row);
            i = i + 1;
        }
        Self { display, frame: [[0u8; NC]; NR] }
    }

    /// The grid that the playfield shows.
    pub fn frame(&self) -> (f: [[u8; NC]; NR])
        ensures
            f == self.shown(),
    {
        self.frame
    }

    /// The display the playfield draws on.
    pub fn display(&self) -> (d: &D)
        ensures
            *d == self.screen(),
    {
        &self.display
    }

    /// Take `grid` as the frame to show.
    pub fn update(&mut self, grid: &[[u8; NC]; NR])
        ensures
            final(self).shown() == *grid,
            final(self).screen() == old(self).screen(),
            final(self).rows_sent() == old(self).rows_sent(),
    {
        self.frame = *grid;
    }

    /// Draw the frame on the display: one display frame of 240 rows, row
    /// `py` showing each pixel over a live cell in green and each pixel over
    /// a dead cell in black.
    pub fn draw(&mut self)
        requires
            fits_display(NR as int),
            fits_display(NC as int),
        ensures
            final(self).shown() == old(self).shown(),
            final(self).screen().frames_begun() == old(self).screen().frames_begun() + 1,
            final(self).rows_sent().len() == 240,
            forall|py: int|
                0 <= py < 240 ==> is_rendered_row(
                    #[trigger] final(self).rows_sent()[py],
                    final(self).shown(),
                    py,
                    alive_pair(),
                    dead_pair(),
                ),
    {
        let on = color_be(alive());
        let off = color_be(dead());
        self.display.begin_frame();
        let mut py: usize = 0;
        while py < 240
            invariant
                0 <= py <= 240,
                fits_display(NR as int),
                fits_display(NC as int),
                self.frame == old(self).frame,
                on == alive_pair(),
                off == dead_pair(),
                self.display.received().len() == py,
                self.display.frames_begun() == old(self).display.frames_begun() + 1,
                forall|q: int|
                    0 <= q < py ==> is_rendered_row(
                        #[trigger] self.display.received()[q],
                        self.frame,
                        q,
                        on,
                        off,
                    ),
            decreases 240 - py,
        {
            let row = render_row(&self.frame, py, on, off);
            self.display.write_row(&row);
            py = py + 1;
        }
    }
}

} // verus!
