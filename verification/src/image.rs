//! The last-writer-wins pixel store behind a scene's current image.
//!
//! Each pixel carries the timestamp of the event that last set it; an
//! event only lands if its timestamp is not older than what is already
//! there.  Persistence of this state is the surrounding program's
//! concern; the rules about what a write does and what a row reads live
//! here.
use vstd::prelude::*;

verus! {

/// The pixels and write timestamps of one scene.
pub struct MmapImageState {
    pdata: Vec<u32>,
    tdata: Vec<i64>,
    width: usize,
    height: usize,
}

impl MmapImageState {
    pub closed spec fn spec_width(self) -> int {
        self.width as int
    }

    pub closed spec fn spec_height(self) -> int {
        self.height as int
    }

    /// The stored color of a pixel.
    pub closed spec fn pixel(self, x: int, y: int) -> u32 {
        self.pdata@[y * self.spec_width() + x]
    }

    /// The timestamp of the last write to a pixel.
    pub closed spec fn stamp(self, x: int, y: int) -> i64 {
        self.tdata@[y * self.spec_width() + x]
    }

    pub closed spec fn wf(self) -> bool {
        &&& self.pdata@.len() == self.width * self.height
        &&& self.tdata@.len() == self.width * self.height
        &&& self.width <= 0x1000_0000
        &&& self.height <= 0x1000_0000
        &&& self.width * self.height <= 0x1000_0000
    }

    /// The dimensions of a well-formed image are bounded.
    pub proof fn lemma_wf_bounds(self)
        requires
            self.wf(),
        ensures
            0 <= self.spec_width() <= 0x1000_0000,
            0 <= self.spec_height() <= 0x1000_0000,
            self.spec_width() * self.spec_height() <= 0x1000_0000,
    {
    }

    /// A fresh all-black, never-written image.
    pub fn new(width: usize, height: usize) -> (r: MmapImageState)
        requires
            width <= 0x1000_0000,
            height <= 0x1000_0000,
            width * height <= 0x1000_0000,
        ensures
            r.wf(),
            r.spec_width() == width,
            r.spec_height() == height,
            forall|x: int, y: int|
                0 <= x < width && 0 <= y < height ==> #[trigger] r.pixel(x, y) == 0,
            forall|x: int, y: int|
                0 <= x < width && 0 <= y < height ==> #[trigger] r.stamp(x, y) == 0,
    {
        let n = width * height;
        let r = MmapImageState { pdata: vec![0u32; n], tdata: vec![0i64; n], width, height };
        proof {
            lemma_cell_in_range(width as int, height as int);
        }
        r
    }

    /// Apply one event: if the position is inside the image and no younger
    /// write holds the pixel, store the low 24 bits of the color with the
    /// alpha bits forced on, and record the timestamp.  Anything outside
    /// the image, or older than the current pixel, changes nothing.
    pub fn write_pixel(&mut self, x: i32, y: i32, ts: i64, color: i32)
        requires
            old(self).wf(),
        ensures
            final(self).wf(),
            final(self).spec_width() == old(self).spec_width(),
            final(self).spec_height() == old(self).spec_height(),
            ({
                let hit = 0 <= x < old(self).spec_width() && 0 <= y < old(self).spec_height()
                    && old(self).stamp(x as int, y as int) <= ts;
                &&& (hit ==> final(self).pixel(x as int, y as int) == (0xFF00_0000u32 | ((color
                    & 0xFF_FFFF) as u32)) && final(self).stamp(x as int, y as int) == ts)
                &&& forall|i: int, j: int|
                    0 <= i < old(self).spec_width() && 0 <= j < old(self).spec_height() && !(hit
                        && i == x && j == y) ==> #[trigger] final(self).pixel(i, j) == old(
                        self,
                    ).pixel(i, j) && #[trigger] final(self).stamp(i, j) == old(self).stamp(i, j)
            }),
    {
        if x < 0 || y < 0 {
            return ;
        }
        let xu = x as usize;
        let yu = y as usize;
        if xu >= self.width || yu >= self.height {
            return ;
        }
        proof {
            lemma_cell_in_range(self.width as int, self.height as int);
            lemma_cell_distinct(self.width as int);
            assert(yu * self.width + xu < self.width * self.height) by (nonlinear_arith)
                requires
                    xu < self.width,
                    yu < self.height,
            ;
            assert(yu * self.width >= 0) by (nonlinear_arith)
                requires
                    yu >= 0,
                    self.width >= 0,
            ;
        }
        let offset = yu * self.width + xu;
        if self.tdata[offset] <= ts {
            let p = &mut self.pdata[offset];
            *p = 0xFF00_0000u32 | ((color & 0xFF_FFFF) as u32);
            let t = &mut self.tdata[offset];
            *t = ts;
        }
    }

    /// The image's width and height.
    pub fn get_size(&self) -> (r: (usize, usize))
        ensures
            r.0 == self.spec_width(),
            r.1 == self.spec_height(),
    {
        (self.width, self.height)
    }

    /// Read one row as RGBA bytes into the front of `buf`, as many whole
    /// pixels as the buffer holds.
    pub fn read_row(&self, y: usize, buf: &mut Vec<u8>)
        requires
            self.wf(),
            y < self.spec_height(),
        ensures
            final(buf)@.len() == old(buf)@.len(),
            ({
                let m = if self.spec_width() <= old(buf)@.len() / 4 {
                    self.spec_width()
                } else {
                    old(buf)@.len() as int / 4
                };
                &&& forall|i: int|
                    0 <= i < m ==> #[trigger] final(buf)@[4 * i] == ((self.pixel(i, y as int)
                        >> 16) as u8) && final(buf)@[4 * i + 1] == ((self.pixel(i, y as int)
                        >> 8) as u8) && final(buf)@[4 * i + 2] == (self.pixel(i, y as int) as u8)
                        && final(buf)@[4 * i + 3] == ((self.pixel(i, y as int) >> 24) as u8)
                &&& forall|k: int| 4 * m <= k < final(buf)@.len() ==> #[trigger] final(buf)@[k]
                    == old(buf)@[k]
            }),
    {
        proof {
            assert((y + 1) * self.width <= self.width * self.height) by (nonlinear_arith)
                requires
                    y < self.height,
                    self.width >= 0,
            ;
            assert(y * self.width >= 0 && y * self.width + self.width == (y + 1) * self.width)
                by (nonlinear_arith)
                requires
                    y >= 0,
                    self.width >= 0,
            ;
        }
        let offset = y * self.width;
        let m = if self.width <= buf.len() / 4 {
            self.width
        } else {
            buf.len() / 4
        };
        proof {
            lemma_cell_in_range(self.width as int, self.height as int);
        }
        let mut i: usize = 0;
        while i < m
            invariant
                self.wf(),
                i <= m,
                y < self.spec_height(),
                offset == y * self.width,
                m <= self.width,
                4 * m <= buf@.len(),
                buf@.len() == old(buf)@.len(),
                m == if self.spec_width() <= old(buf)@.len() / 4 {
                    self.spec_width()
                } else {
                    old(buf)@.len() as int / 4
                },
                forall|j: int|
                    0 <= j < i ==> #[trigger] buf@[4 * j] == ((self.pixel(j, y as int)
                        >> 16) as u8) && buf@[4 * j + 1] == ((self.pixel(j, y as int)
                        >> 8) as u8) && buf@[4 * j + 2] == (self.pixel(j, y as int) as u8)
                        && buf@[4 * j + 3] == ((self.pixel(j, y as int) >> 24) as u8),
                offset + self.width <= self.width * self.height,
                forall|k: int| 4 * i <= k < buf@.len() ==> #[trigger] buf@[k] == old(buf)@[k],
            decreases m - i,
        {
            proof {
                lemma_cell_in_range(self.width as int, self.height as int);
            }
            let p = self.pdata[offset + i];
            let b0 = &mut buf[4 * i];
            *b0 = (p >> 16) as u8;
            let b1 = &mut buf[4 * i + 1];
            *b1 = (p >> 8) as u8;
            let b2 = &mut buf[4 * i + 2];
            *b2 = p as u8;
            let b3 = &mut buf[4 * i + 3];
            *b3 = (p >> 24) as u8;
            i += 1;
        }
    }
}

/// Every cell index of an in-bounds position is inside the backing store.
proof fn lemma_cell_in_range(w: int, h: int)
    ensures
        forall|x: int, y: int| 0 <= x < w && 0 <= y < h ==> 0 <= #[trigger] (y * w + x) < w * h,
{
    assert forall|x: int, y: int| 0 <= x < w && 0 <= y < h implies 0 <= #[trigger] (y * w + x) < w
        * h by {
        assert(y * w + x < w * h) by (nonlinear_arith)
            requires
                0 <= x < w,
                0 <= y < h,
        ;
        assert(y * w + x >= 0) by (nonlinear_arith)
            requires
                0 <= x,
                0 <= y,
                w >= 0,
        ;
    }
}

/// Distinct in-bounds positions have distinct cell indices.
proof fn lemma_cell_distinct(w: int)
    ensures
        forall|x1: int, y1: int, x2: int, y2: int|
            0 <= x1 < w && 0 <= x2 < w && (x1 != x2 || y1 != y2) ==> #[trigger] (y1 * w + x1)
                != #[trigger] (y2 * w + x2),
{
    assert forall|x1: int, y1: int, x2: int, y2: int|
        0 <= x1 < w && 0 <= x2 < w && (x1 != x2 || y1 != y2) implies #[trigger] (y1 * w + x1)
        != #[trigger] (y2 * w + x2) by {
        if y1 != y2 {
            assert(y1 * w + x1 != y2 * w + x2) by (nonlinear_arith)
                requires
                    0 <= x1 < w,
                    0 <= x2 < w,
                    y1 != y2,
            ;
        }
    }
}

} // verus!
