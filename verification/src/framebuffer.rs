//! The framebuffer: a color plane and a depth plane of the same size, and the
//! depth-tested write that every drawing operation goes through.

use vstd::prelude::*;
use crate::color::{Color, LinearColor};
use crate::depth::{depth_is_nearer, depth_is_ordered, is_ordered, DEPTH_FAR};
use crate::line::{
    direction, distance, lemma_line_endpoints, lemma_line_step, lemma_nearest_step_unique,
    line_error, line_point, line_span, on_line,
};

verus! {

/// What a framebuffer holds, as mathematical values. Both planes are stored
/// row by row: the cell of pixel `(x, y)` has offset `y * width + x`.
pub struct FramebufferView {
    pub width: int,
    pub height: int,
    pub pixels: Seq<Color>,
    pub depths: Seq<i32>,
    pub background: Color,
    pub current: Color,
}

impl FramebufferView {
    /// Both planes have one cell per pixel, and no depth cell holds a key
    /// that cannot be compared.
    pub open spec fn wf(self) -> bool {
        &&& 0 <= self.width
        &&& 0 <= self.height
        &&& self.pixels.len() == self.width * self.height
        &&& self.depths.len() == self.width * self.height
        &&& forall|i: int|
            0 <= i < self.depths.len() ==> depth_is_ordered(#[trigger] self.depths[i] as int)
    }

    /// Whether `(x, y)` names a pixel of the framebuffer.
    pub open spec fn contains(self, x: int, y: int) -> bool {
        0 <= x < self.width && 0 <= y < self.height
    }

    /// The offset of pixel `(x, y)` in both planes.
    pub open spec fn offset(self, x: int, y: int) -> int {
        y * self.width + x
    }

    /// The stored color of pixel `(x, y)`.
    pub open spec fn pixel(self, x: int, y: int) -> Color {
        self.pixels[self.offset(x, y)]
    }

    /// The stored depth key of pixel `(x, y)`.
    pub open spec fn depth(self, x: int, y: int) -> i32 {
        self.depths[self.offset(x, y)]
    }

    /// A framebuffer of the given size as it is first made: black
    /// background, white current color, every cell cleared.
    pub open spec fn blank(width: int, height: int) -> FramebufferView {
        FramebufferView {
            width,
            height,
            pixels: Seq::new((width * height) as nat, |i: int| Color::spec_black()),
            depths: Seq::new((width * height) as nat, |i: int| DEPTH_FAR),
            background: Color::spec_black(),
            current: Color::spec_white(),
        }
    }

    /// The same framebuffer with every color cell set to the background color
    /// and every depth cell set to the farthest depth.
    pub open spec fn cleared(self) -> FramebufferView {
        FramebufferView {
            pixels: Seq::new(self.pixels.len(), |i: int| self.background),
            depths: Seq::new(self.depths.len(), |i: int| DEPTH_FAR),
            ..self
        }
    }

    /// Whether a write of `depth` at `(x, y)` lands: the pixel exists and
    /// `depth` is strictly nearer than what the cell holds.
    pub open spec fn passes(self, x: int, y: int, depth: i32) -> bool {
        self.contains(x, y) && depth_is_nearer(depth as int, self.depth(x, y) as int)
    }

    /// The framebuffer after one depth-tested write. Where the write lands,
    /// the cell takes `depth` and the packed form of `color`; otherwise
    /// nothing changes.
    pub open spec fn write(self, x: int, y: int, color: LinearColor, depth: i32) -> FramebufferView {
        if self.passes(x, y, depth) {
            FramebufferView {
                pixels: self.pixels.update(self.offset(x, y), color.packed()),
                depths: self.depths.update(self.offset(x, y), depth),
                ..self
            }
        } else {
            self
        }
    }

    /// The framebuffer after the first `count` pixels of the segment from
    /// `(x0, y0)` to `(x1, y1)` were written, in order, all with `color` and
    /// `depth`.
    pub open spec fn plot(
        self,
        x0: int,
        y0: int,
        x1: int,
        y1: int,
        color: LinearColor,
        depth: i32,
        count: nat,
    ) -> FramebufferView
        decreases count,
    {
        if count == 0 {
            self
        } else {
            let p = line_point(x0, y0, x1, y1, count - 1);
            self.plot(x0, y0, x1, y1, color, depth, (count - 1) as nat).write(
                p.0,
                p.1,
                color,
                depth,
            )
        }
    }

    /// The framebuffer after the whole segment from `(x0, y0)` to `(x1, y1)`
    /// was written at `depth`, from its start to its end.
    pub open spec fn draw_line(
        self,
        x0: int,
        y0: int,
        x1: int,
        y1: int,
        color: Color,
        depth: i32,
    ) -> FramebufferView {
        self.plot(
            x0,
            y0,
            x1,
            y1,
            color.linear(),
            depth,
            (line_span(x0, y0, x1, y1) + 1) as nat,
        )
    }
}

/// Inside a framebuffer of `width` by `height` pixels the offset of every
/// pixel is below `width * height`.
pub proof fn lemma_offset_bounds(width: int, height: int, x: int, y: int)
    requires
        0 <= x < width,
        0 <= y < height,
    ensures
        0 <= y * width + x < width * height,
{
    assert(y * width >= 0) by (nonlinear_arith)
        requires
            0 <= y,
            0 <= width,
    ;
    assert((y + 1) * width <= height * width) by (nonlinear_arith)
        requires
            y + 1 <= height,
            0 <= width,
    ;
    assert((y + 1) * width == y * width + width) by (nonlinear_arith);
    assert(height * width == width * height) by (nonlinear_arith);
}

/// Two pixels of a framebuffer with the same offset are the same pixel.
pub proof fn lemma_offset_injective(width: int, x: int, y: int, px: int, py: int)
    requires
        0 <= x < width,
        0 <= px < width,
        y * width + x == py * width + px,
    ensures
        x == px,
        y == py,
{
    assert((y - py) * width == y * width - py * width) by (nonlinear_arith);
    assert(y - py == 0) by (nonlinear_arith)
        requires
            (y - py) * width == px - x,
            -width < px - x < width,
    ;
}

/// Overwrites one cell of a depth plane.
fn store(plane: &mut Vec<i32>, index: usize, key: i32)
    requires
        index < old(plane)@.len(),
    ensures
        final(plane)@ == old(plane)@.update(index as int, key),
    no_unwind
{
    plane[index] = key;
}

/// The color plane and the depth plane of an image, with the colors used to
/// clear and to draw.
pub struct Framebuffer {
    width: i32,
    height: i32,
    color_buffer: Vec<Color>,
    background_color: Color,
    current_color: Color,
    depth_buffer: Vec<i32>,
}

impl View for Framebuffer {
    type V = FramebufferView;

    closed spec fn view(&self) -> FramebufferView {
        FramebufferView {
            width: self.width as int,
            height: self.height as int,
            pixels: self.color_buffer@,
            depths: self.depth_buffer@,
            background: self.background_color,
            current: self.current_color,
        }
    }
}

impl Framebuffer {
    #[verifier::type_invariant]
    closed spec fn inv(self) -> bool {
        self@.wf()
    }

    /// Makes a framebuffer of `width` by `height` pixels with a black
    /// background, every cell cleared.
    pub fn new(width: i32, height: i32) -> (fb: Framebuffer)
        requires
            0 <= width,
            0 <= height,
            width * height <= usize::MAX,
        ensures
            fb@ == FramebufferView::blank(width as int, height as int),
    {
        let background_color = Color::black();
        let cells: usize = (width as usize) * (height as usize);
        let mut color_buffer: Vec<Color> = Vec::new();
        let mut depth_buffer: Vec<i32> = Vec::new();
        let mut i: usize = 0;
        while i < cells
            invariant
                i <= cells,
                color_buffer@.len() == i,
                depth_buffer@.len() == i,
                forall|k: int| 0 <= k < i ==> color_buffer@[k] == background_color,
                forall|k: int| 0 <= k < i ==> depth_buffer@[k] == DEPTH_FAR,
            decreases cells - i,
        {
            color_buffer.push(background_color);
            depth_buffer.push(DEPTH_FAR);
            i += 1;
        }
        let fb = Framebuffer {
            width,
            height,
            color_buffer,
            background_color,
            current_color: Color::white(),
            depth_buffer,
        };
        assert(fb@.pixels =~= FramebufferView::blank(width as int, height as int).pixels);
        assert(fb@.depths =~= FramebufferView::blank(width as int, height as int).depths);
        fb
    }

    /// The width in pixels.
    pub fn width(&self) -> (w: i32)
        ensures
            w == self@.width,
    {
        self.width
    }

    /// The height in pixels.
    pub fn height(&self) -> (h: i32)
        ensures
            h == self@.height,
    {
        self.height
    }

    /// The color that `clear` fills the image with.
    pub fn background_color(&self) -> (c: Color)
        ensures
            c == self@.background,
    {
        self.background_color
    }

    /// The color selected for drawing.
    pub fn current_color(&self) -> (c: Color)
        ensures
            c == self@.current,
    {
        self.current_color
    }

    /// The stored color of pixel `(x, y)`, where the framebuffer has one.
    pub fn pixel(&self, x: i32, y: i32) -> (c: Option<Color>)
        ensures
            c == (if self@.contains(x as int, y as int) {
                Some(self@.pixel(x as int, y as int))
            } else {
                None
            }),
    {
        proof {
            use_type_invariant(self);
        }
        if x >= 0 && x < self.width && y >= 0 && y < self.height {
            proof {
                lemma_offset_bounds(self.width as int, self.height as int, x as int, y as int);
            }
            assert(y * self.width + x < self.color_buffer.len());
            let index: usize = (y as usize) * (self.width as usize) + (x as usize);
            Some(self.color_buffer[index])
        } else {
            None
        }
    }

    /// The stored depth key of pixel `(x, y)`, where the framebuffer has
    /// one.
    pub fn depth(&self, x: i32, y: i32) -> (d: Option<i32>)
        ensures
            d == (if self@.contains(x as int, y as int) {
                Some(self@.depth(x as int, y as int))
            } else {
                None
            }),
    {
        proof {
            use_type_invariant(self);
        }
        if x >= 0 && x < self.width && y >= 0 && y < self.height {
            proof {
                lemma_offset_bounds(self.width as int, self.height as int, x as int, y as int);
            }
            assert(y * self.width + x < self.depth_buffer.len());
            let index: usize = (y as usize) * (self.width as usize) + (x as usize);
            Some(self.depth_buffer[index])
        } else {
            None
        }
    }

    /// The color plane, row by row, for whoever shows the image.
    pub fn color_buffer(&self) -> (pixels: &Vec<Color>)
        ensures
            pixels@ == self@.pixels,
    {
        &self.color_buffer
    }

    /// Sets the color that `clear` fills the image with. No pixel changes
    /// before the next `clear`.
    pub fn set_background_color(&mut self, color: Color)
        ensures
            final(self)@ == (FramebufferView { background: color, ..old(self)@ }),
    {
        proof {
            use_type_invariant(&*self);
        }
        self.background_color = color;
    }

    /// Sets the color selected for drawing. No pixel changes.
    pub fn set_current_color(&mut self, color: Color)
        ensures
            final(self)@ == (FramebufferView { current: color, ..old(self)@ }),
    {
        proof {
            use_type_invariant(&*self);
        }
        self.current_color = color;
    }

    /// Resets every color cell to the background color and every depth cell
    /// to the farthest depth.
    pub fn clear(&mut self)
        ensures
            final(self)@ == old(self)@.cleared(),
    {
        proof {
            use_type_invariant(&*self);
        }
        let cells: usize = self.color_buffer.len();
        let background: Color = self.background_color;
        let mut i: usize = 0;
        while i < cells
            invariant
                i <= cells,
                cells == self.color_buffer@.len(),
                cells == self.depth_buffer@.len(),
                self.width == old(self).width,
                self.height == old(self).height,
                self.background_color == old(self).background_color,
                self.current_color == old(self).current_color,
                background == self.background_color,
                cells == self.width * self.height,
                0 <= self.width,
                0 <= self.height,
                forall|k: int| 0 <= k < i ==> self.color_buffer@[k] == background,
                forall|k: int| 0 <= k < i ==> self.depth_buffer@[k] == DEPTH_FAR,
                forall|k: int| 0 <= k < cells ==> depth_is_ordered(#[trigger] self.depth_buffer@[k] as int),
            decreases cells - i,
        {
            self.color_buffer[i] = background;
            store(&mut self.depth_buffer, i, DEPTH_FAR);
            i += 1;
        }
        assert(self@.pixels =~= old(self)@.cleared().pixels);
        assert(self@.depths =~= old(self)@.cleared().depths);
    }

    /// Writes one pixel through the depth test. Outside the framebuffer
    /// nothing happens. Inside, the write lands only where `depth` is a
    /// number strictly nearer than the stored depth; the cell then takes
    /// `depth` and `color` with every channel clamped.
    pub fn point(&mut self, x: i32, y: i32, color: LinearColor, depth: i32)
        ensures
            final(self)@ == old(self)@.write(x as int, y as int, color, depth),
    {
        proof {
            use_type_invariant(&*self);
        }
        if x >= 0 && x < self.width && y >= 0 && y < self.height {
            proof {
                lemma_offset_bounds(self.width as int, self.height as int, x as int, y as int);
            }
            assert(y * self.width + x < self.color_buffer.len());
            let index: usize = (y as usize) * (self.width as usize) + (x as usize);
            if is_ordered(depth) && depth < self.depth_buffer[index] {
                store(&mut self.depth_buffer, index, depth);
                self.color_buffer[index] = color.pack();
            }
        }
    }

    /// Draws the segment from `(x0, y0)` to `(x1, y1)` at one depth. Every
    /// pixel of the segment goes through the depth test of `point`, in
    /// order from the start point to the end point; pixels outside the
    /// framebuffer are passed over.
    pub fn draw_line_with_depth(
        &mut self,
        x0: i32,
        y0: i32,
        x1: i32,
        y1: i32,
        color: Color,
        depth: i32,
    )
        ensures
            final(self)@ == old(self)@.draw_line(
                x0 as int,
                y0 as int,
                x1 as int,
                y1 as int,
                color,
                depth,
            ),
    {
        let mut x: i32 = x0;
        let mut y: i32 = y0;
        let dx: i64 = if x0 < x1 {
            x1 as i64 - x0 as i64
        } else {
            x0 as i64 - x1 as i64
        };
        let dy: i64 = if y0 < y1 {
            y1 as i64 - y0 as i64
        } else {
            y0 as i64 - y1 as i64
        };
        let sx: i32 = if x0 < x1 {
            1
        } else {
            -1
        };
        let sy: i32 = if y0 < y1 {
            1
        } else {
            -1
        };
        let mut err: i64 = dx - dy;
        let shade: LinearColor = color.to_linear();
        let ghost span: int = line_span(x0 as int, y0 as int, x1 as int, y1 as int);
        let ghost mut i: int = 0;
        proof {
            lemma_line_endpoints(x0 as int, y0 as int, x1 as int, y1 as int);
            if dx >= dy && dx > 0 {
                lemma_nearest_step_unique(0, dy as int, dx as int, 0);
            }
            if dx < dy {
                lemma_nearest_step_unique(0, dx as int, dy as int, 0);
            }
        }
        loop
            invariant_except_break
                self@ == old(self)@.plot(
                    x0 as int,
                    y0 as int,
                    x1 as int,
                    y1 as int,
                    shade,
                    depth,
                    i as nat,
                ),
            invariant
                0 <= i <= span,
                span == line_span(x0 as int, y0 as int, x1 as int, y1 as int),
                dx == distance(x0 as int, x1 as int),
                dy == distance(y0 as int, y1 as int),
                sx == direction(x0 as int, x1 as int),
                sy == direction(y0 as int, y1 as int),
                shade == color.linear(),
                (x as int, y as int) == line_point(x0 as int, y0 as int, x1 as int, y1 as int, i),
                span == 0 ==> err == 0,
                span > 0 && dx >= dy ==> err == line_error(i, dy as int, dx as int),
                dx < dy ==> err == -line_error(i, dx as int, dy as int),
            ensures
                self@ == old(self)@.plot(
                    x0 as int,
                    y0 as int,
                    x1 as int,
                    y1 as int,
                    shade,
                    depth,
                    (span + 1) as nat,
                ),
            decreases span - i,
        {
            self.point(x, y, shade, depth);
            proof {
                lemma_line_endpoints(x0 as int, y0 as int, x1 as int, y1 as int);
            }
            if x == x1 && y == y1 {
                break ;
            }
            proof {
                if dx >= dy {
                    lemma_line_step(i, dy as int, dx as int);
                } else {
                    lemma_line_step(i, dx as int, dy as int);
                }
            }
            let e2: i64 = 2 * err;
            if e2 > -dy {
                err -= dy;
                x += sx;
            }
            if e2 < dx {
                err += dx;
                y += sy;
            }
            proof {
                i = i + 1;
            }
        }
    }
}

/// A framebuffer as it is first made is well formed.
pub proof fn lemma_blank_wf(width: int, height: int)
    requires
        0 <= width,
        0 <= height,
    ensures
        FramebufferView::blank(width, height).wf(),
{
    assert(0 <= width * height) by (nonlinear_arith)
        requires
            0 <= width,
            0 <= height,
    ;
}

/// After `clear` every depth cell holds the farthest depth and every color
/// cell the background color; the size and the two colors stay.
pub proof fn lemma_cleared(v: FramebufferView, x: int, y: int)
    requires
        v.wf(),
        v.contains(x, y),
    ensures
        v.cleared().wf(),
        v.cleared().width == v.width,
        v.cleared().height == v.height,
        v.cleared().background == v.background,
        v.cleared().current == v.current,
        v.cleared().pixel(x, y) == v.background,
        v.cleared().depth(x, y) == DEPTH_FAR,
{
    lemma_offset_bounds(v.width, v.height, x, y);
}

/// What one write does to each pixel: where it lands, its own pixel takes
/// the depth and the packed color; every other pixel, and every pixel
/// where it does not land, keeps what it had.
pub proof fn lemma_write_cell(
    v: FramebufferView,
    x: int,
    y: int,
    color: LinearColor,
    depth: i32,
    px: int,
    py: int,
)
    requires
        v.wf(),
        v.contains(px, py),
    ensures
        v.write(x, y, color, depth).wf(),
        v.write(x, y, color, depth).width == v.width,
        v.write(x, y, color, depth).height == v.height,
        v.write(x, y, color, depth).background == v.background,
        v.write(x, y, color, depth).current == v.current,
        v.passes(x, y, depth) && px == x && py == y ==> {
            &&& v.write(x, y, color, depth).pixel(px, py) == color.packed()
            &&& v.write(x, y, color, depth).depth(px, py) == depth
        },
        !(v.passes(x, y, depth) && px == x && py == y) ==> {
            &&& v.write(x, y, color, depth).pixel(px, py) == v.pixel(px, py)
            &&& v.write(x, y, color, depth).depth(px, py) == v.depth(px, py)
        },
{
    lemma_offset_bounds(v.width, v.height, px, py);
    if v.passes(x, y, depth) {
        lemma_offset_bounds(v.width, v.height, x, y);
        if v.offset(x, y) == v.offset(px, py) {
            lemma_offset_injective(v.width, x, y, px, py);
        }
    }
}

/// A write outside the framebuffer changes nothing.
pub proof fn lemma_write_outside(v: FramebufferView, x: int, y: int, color: LinearColor, depth: i32)
    requires
        !v.contains(x, y),
    ensures
        v.write(x, y, color, depth) == v,
{
}

/// Writing the same pixel, color and depth twice gives what writing them
/// once gives.
pub proof fn lemma_write_idempotent(
    v: FramebufferView,
    x: int,
    y: int,
    color: LinearColor,
    depth: i32,
)
    requires
        v.wf(),
    ensures
        v.write(x, y, color, depth).write(x, y, color, depth) == v.write(x, y, color, depth),
{
    if v.passes(x, y, depth) {
        lemma_write_cell(v, x, y, color, depth, x, y);
    }
}

/// A write that is not nearer than an earlier write to the same pixel
/// changes nothing: of two writes at the same depth the first one stays.
pub proof fn lemma_first_write_stays(
    v: FramebufferView,
    x: int,
    y: int,
    c1: LinearColor,
    d1: i32,
    c2: LinearColor,
    d2: i32,
)
    requires
        v.wf(),
        depth_is_ordered(d1 as int),
        !depth_is_nearer(d2 as int, d1 as int),
    ensures
        v.write(x, y, c1, d1).write(x, y, c2, d2) == v.write(x, y, c1, d1),
{
    if v.contains(x, y) {
        lemma_offset_bounds(v.width, v.height, x, y);
        lemma_write_cell(v, x, y, c1, d1, x, y);
    }
}

/// Two writes to one pixel of a cleared framebuffer: the nearer one shows,
/// whichever came first.
pub proof fn lemma_nearer_write_shows(
    v: FramebufferView,
    x: int,
    y: int,
    c1: LinearColor,
    d1: i32,
    c2: LinearColor,
    d2: i32,
)
    requires
        v.wf(),
        v.contains(x, y),
    ensures
        depth_is_nearer(d2 as int, d1 as int) ==> v.cleared().write(x, y, c1, d1).write(
            x,
            y,
            c2,
            d2,
        ).pixel(x, y) == c2.packed(),
        depth_is_nearer(d1 as int, d2 as int) ==> v.cleared().write(x, y, c1, d1).write(
            x,
            y,
            c2,
            d2,
        ).pixel(x, y) == c1.packed(),
        d1 == d2 && depth_is_nearer(d1 as int, DEPTH_FAR as int) ==> v.cleared().write(
            x,
            y,
            c1,
            d1,
        ).write(x, y, c2, d2).pixel(x, y) == c1.packed(),
{
    let c = v.cleared();
    lemma_cleared(v, x, y);
    let first = c.write(x, y, c1, d1);
    lemma_write_cell(c, x, y, c1, d1, x, y);
    lemma_write_cell(first, x, y, c2, d2, x, y);
}

/// A write that lands stores every channel clamped to the nearest of 0 and
/// 255, and an opaque alpha.
pub proof fn lemma_write_clamps(v: FramebufferView, x: int, y: int, color: LinearColor, depth: i32)
    requires
        v.wf(),
        v.passes(x, y, depth),
    ensures
        ({
            let stored = v.write(x, y, color, depth).pixel(x, y);
            &&& stored.r == (if color.r < 0 { 0 } else if color.r > 255 { 255 } else { color.r as int })
            &&& stored.g == (if color.g < 0 { 0 } else if color.g > 255 { 255 } else { color.g as int })
            &&& stored.b == (if color.b < 0 { 0 } else if color.b > 255 { 255 } else { color.b as int })
            &&& stored.a == 255
        }),
{
    lemma_write_cell(v, x, y, color, depth, x, y);
}

/// Whether one of the first `count` pixels of the segment is `(x, y)`.
pub open spec fn on_line_before(
    x0: int,
    y0: int,
    x1: int,
    y1: int,
    count: int,
    x: int,
    y: int,
) -> bool {
    exists|i: int| 0 <= i < count && #[trigger] line_point(x0, y0, x1, y1, i) == (x, y)
}

/// What drawing the first `count` pixels of a segment does to each pixel
/// of the framebuffer: a pixel among them ends as one write of the color
/// and depth leaves it, however often the segment passes through it; any
/// other pixel keeps what it had.
pub proof fn lemma_plot_cell(
    v: FramebufferView,
    x0: int,
    y0: int,
    x1: int,
    y1: int,
    color: LinearColor,
    depth: i32,
    count: nat,
    px: int,
    py: int,
)
    requires
        v.wf(),
        v.contains(px, py),
    ensures
        ({
            let w = v.plot(x0, y0, x1, y1, color, depth, count);
            let once = v.write(px, py, color, depth);
            &&& w.wf()
            &&& w.width == v.width
            &&& w.height == v.height
            &&& w.background == v.background
            &&& w.current == v.current
            &&& on_line_before(x0, y0, x1, y1, count as int, px, py) ==> w.pixel(px, py)
                == once.pixel(px, py) && w.depth(px, py) == once.depth(px, py)
            &&& !on_line_before(x0, y0, x1, y1, count as int, px, py) ==> w.pixel(px, py)
                == v.pixel(px, py) && w.depth(px, py) == v.depth(px, py)
        }),
    decreases count,
{
    lemma_write_cell(v, px, py, color, depth, px, py);
    if count > 0 {
        let before = (count - 1) as nat;
        let prev = v.plot(x0, y0, x1, y1, color, depth, before);
        let p = line_point(x0, y0, x1, y1, count - 1);
        lemma_plot_cell(v, x0, y0, x1, y1, color, depth, before, px, py);
        lemma_write_cell(prev, p.0, p.1, color, depth, px, py);
        if p == (px, py) {
            assert(on_line_before(x0, y0, x1, y1, count as int, px, py));
        } else if on_line_before(x0, y0, x1, y1, count as int, px, py) {
            let i = choose|i: int|
                0 <= i < count && #[trigger] line_point(x0, y0, x1, y1, i) == (px, py);
            assert(0 <= i < before);
            assert(on_line_before(x0, y0, x1, y1, before as int, px, py));
        } else {
            if on_line_before(x0, y0, x1, y1, before as int, px, py) {
                let i = choose|i: int|
                    0 <= i < before && #[trigger] line_point(x0, y0, x1, y1, i) == (px, py);
                assert(0 <= i < count);
            }
        }
    }
}

/// What drawing a segment does to each pixel of the framebuffer: a pixel
/// on the segment ends as one write of the line's color and depth leaves
/// it; any other pixel keeps what it had.
pub proof fn lemma_draw_line_cell(
    v: FramebufferView,
    x0: int,
    y0: int,
    x1: int,
    y1: int,
    color: Color,
    depth: i32,
    px: int,
    py: int,
)
    requires
        v.wf(),
        v.contains(px, py),
    ensures
        ({
            let w = v.draw_line(x0, y0, x1, y1, color, depth);
            let once = v.write(px, py, color.linear(), depth);
            &&& w.wf()
            &&& w.width == v.width
            &&& w.height == v.height
            &&& w.background == v.background
            &&& w.current == v.current
            &&& on_line(x0, y0, x1, y1, px, py) ==> w.pixel(px, py) == once.pixel(px, py)
                && w.depth(px, py) == once.depth(px, py)
            &&& !on_line(x0, y0, x1, y1, px, py) ==> w.pixel(px, py) == v.pixel(px, py)
                && w.depth(px, py) == v.depth(px, py)
        }),
{
    let span = line_span(x0, y0, x1, y1);
    lemma_plot_cell(v, x0, y0, x1, y1, color.linear(), depth, (span + 1) as nat, px, py);
    if on_line(x0, y0, x1, y1, px, py) {
        let i = choose|i: int| 0 <= i <= span && line_point(x0, y0, x1, y1, i) == (px, py);
        assert(0 <= i < span + 1);
        assert(on_line_before(x0, y0, x1, y1, span + 1, px, py));
    } else {
        if on_line_before(x0, y0, x1, y1, span + 1, px, py) {
            let i = choose|i: int|
                0 <= i < span + 1 && #[trigger] line_point(x0, y0, x1, y1, i) == (px, py);
            assert(0 <= i <= span);
        }
    }
}

} // verus!
