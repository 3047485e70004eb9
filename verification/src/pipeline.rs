//! The stages of a frame around the rasterizer: vertex transform, triangle
//! assembly, the choice of a surface, and the write of shaded fragments.

use vstd::prelude::*;
use crate::color::{Color, LinearColor};
use crate::depth::{depth_is_finite, depth_is_ordered, is_finite};
use crate::framebuffer::{lemma_offset_bounds, lemma_write_cell, Framebuffer, FramebufferView};
use crate::triangle::ScreenPoint;

verus! {

/// The surfaces a drawable can have; each selects one shading function.
#[derive(Clone, Copy, Debug, PartialEq, Eq, Structural)]
pub enum SurfaceKind {
    Sun,
    Mercury,
    Earth,
    Mars,
    Uranus,
    Nave,
    Skybox,
    /// Any other surface: shaded with the interpolated vertex color.
    Plain,
}

impl SurfaceKind {
    /// The surface that the tag `name` selects. A tag that names no surface
    /// selects `Plain`.
    pub open spec fn of_name(name: Seq<char>) -> SurfaceKind {
        if name == "Sun"@ {
            SurfaceKind::Sun
        } else if name == "Mercury"@ {
            SurfaceKind::Mercury
        } else if name == "Earth"@ {
            SurfaceKind::Earth
        } else if name == "Mars"@ {
            SurfaceKind::Mars
        } else if name == "Uranus"@ {
            SurfaceKind::Uranus
        } else if name == "Nave"@ {
            SurfaceKind::Nave
        } else if name == "Skybox"@ {
            SurfaceKind::Skybox
        } else {
            SurfaceKind::Plain
        }
    }

    /// Selects the surface for a tag.
    pub fn from_name(name: &str) -> (kind: SurfaceKind)
        ensures
            kind == SurfaceKind::of_name(name@),
    {
        let tag: String = name.to_owned();
        if tag == "Sun".to_owned() {
            SurfaceKind::Sun
        } else if tag == "Mercury".to_owned() {
            SurfaceKind::Mercury
        } else if tag == "Earth".to_owned() {
            SurfaceKind::Earth
        } else if tag == "Mars".to_owned() {
            SurfaceKind::Mars
        } else if tag == "Uranus".to_owned() {
            SurfaceKind::Uranus
        } else if tag == "Nave".to_owned() {
            SurfaceKind::Nave
        } else if tag == "Skybox".to_owned() {
            SurfaceKind::Skybox
        } else {
            SurfaceKind::Plain
        }
    }
}

/// Runs the vertex stage over a mesh: one output vertex for every input
/// vertex, in the same order, each the result of `vertex_shader` on it.
pub fn transform_vertices<V, F: Fn(&V) -> V>(vertex_array: &Vec<V>, vertex_shader: F) -> (out: Vec<V>)
    requires
        forall|i: int| 0 <= i < vertex_array.len() ==> call_requires(vertex_shader, (&vertex_array[i],)),
    ensures
        out.len() == vertex_array.len(),
        forall|i: int|
            0 <= i < vertex_array.len() ==> call_ensures(
                vertex_shader,
                (&vertex_array[i],),
                #[trigger] out[i],
            ),
{
    let mut out: Vec<V> = Vec::new();
    let mut i: usize = 0;
    while i < vertex_array.len()
        invariant
            i <= vertex_array.len(),
            out.len() == i,
            forall|k: int|
                0 <= k < vertex_array.len() ==> call_requires(vertex_shader, (&vertex_array[k],)),
            forall|k: int|
                0 <= k < i ==> call_ensures(vertex_shader, (&vertex_array[k],), #[trigger] out[k]),
        decreases vertex_array.len() - i,
    {
        out.push(vertex_shader(&vertex_array[i]));
        i += 1;
    }
    out
}

/// Groups a transformed mesh into triangles: every three vertices in a row
/// make one, and a rest of one or two vertices at the end is dropped.
pub fn assemble_triangles<V: Copy>(vertices: &Vec<V>) -> (triangles: Vec<[V; 3]>)
    ensures
        triangles.len() == vertices.len() / 3,
        forall|k: int|
            0 <= k < triangles.len() ==> {
                &&& (#[trigger] triangles[k])[0] == vertices[3 * k]
                &&& triangles[k][1] == vertices[3 * k + 1]
                &&& triangles[k][2] == vertices[3 * k + 2]
            },
{
    let mut triangles: Vec<[V; 3]> = Vec::new();
    let count: usize = vertices.len() / 3;
    let mut k: usize = 0;
    while k < count
        invariant
            k <= count,
            count == vertices.len() / 3,
            triangles.len() == k,
            forall|j: int|
                0 <= j < k ==> {
                    &&& (#[trigger] triangles[j])[0] == vertices[3 * j]
                    &&& triangles[j][1] == vertices[3 * j + 1]
                    &&& triangles[j][2] == vertices[3 * j + 2]
                },
        decreases count - k,
    {
        let i: usize = 3 * k;
        triangles.push([vertices[i], vertices[i + 1], vertices[i + 2]]);
        k += 1;
    }
    triangles
}

/// A shaded fragment: a pixel, the depth of the surface there, and the
/// color that the surface's shading function gave it. The color is `None`
/// where the shading function gave a channel that is not a finite number.
#[derive(Clone, Copy, Debug, PartialEq, Eq)]
pub struct Fragment {
    pub x: i32,
    pub y: i32,
    pub depth: i32,
    pub color: Option<LinearColor>,
}

impl Fragment {
    /// Whether the fragment is one for pixel `(x, y)` that a frame keeps:
    /// its depth is a finite number and it has a color.
    pub open spec fn lands_on(self, x: int, y: int) -> bool {
        self.x == x && self.y == y && depth_is_finite(self.depth as int) && self.color.is_some()
    }
}

impl FramebufferView {
    /// Whether a fragment at `(x, y)` with `depth` is worth shading: the
    /// pixel exists and the depth is a finite number.
    pub open spec fn admits(self, x: int, y: int, depth: i32) -> bool {
        self.contains(x, y) && depth_is_finite(depth as int)
    }

    /// The framebuffer after one fragment: a fragment that is admitted and
    /// has a color is written through the depth test, any other is
    /// discarded.
    pub open spec fn accept(self, fragment: Fragment) -> FramebufferView {
        if self.admits(fragment.x as int, fragment.y as int, fragment.depth)
            && fragment.color.is_some() {
            self.write(
                fragment.x as int,
                fragment.y as int,
                fragment.color.unwrap(),
                fragment.depth,
            )
        } else {
            self
        }
    }

    /// The framebuffer after all of `fragments`, taken in order.
    pub open spec fn render(self, fragments: Seq<Fragment>) -> FramebufferView
        decreases fragments.len(),
    {
        if fragments.len() == 0 {
            self
        } else {
            self.render(fragments.drop_last()).accept(fragments.last())
        }
    }

    /// The framebuffer after the first `count` segments of the path
    /// through `points` were drawn; segment `k` joins point `k` to point
    /// `k + 1`.
    pub open spec fn draw_path(
        self,
        points: Seq<ScreenPoint>,
        color: Color,
        depth: i32,
        count: nat,
    ) -> FramebufferView
        decreases count,
    {
        if count == 0 {
            self
        } else {
            self.draw_path(points, color, depth, (count - 1) as nat).draw_line(
                points[count - 1].x as int,
                points[count - 1].y as int,
                points[count as int].x as int,
                points[count as int].y as int,
                color,
                depth,
            )
        }
    }

    /// The framebuffer after the closed path through `points` was drawn:
    /// every segment from one point to the next, then the segment from the
    /// last point back to the first. Without points nothing is drawn.
    pub open spec fn draw_closed_path(
        self,
        points: Seq<ScreenPoint>,
        color: Color,
        depth: i32,
    ) -> FramebufferView {
        if points.len() == 0 {
            self
        } else {
            self.draw_path(points, color, depth, (points.len() - 1) as nat).draw_line(
                points.last().x as int,
                points.last().y as int,
                points[0].x as int,
                points[0].y as int,
                color,
                depth,
            )
        }
    }
}

/// After any run of fragments every pixel holds the nearest of what it
/// held before and of the fragments that landed on it, and of several
/// equally near ones the earliest: the depth cell is the least of those
/// depths, and the color cell is the color that came with it.
pub proof fn lemma_render_keeps_nearest(
    v: FramebufferView,
    fragments: Seq<Fragment>,
    px: int,
    py: int,
)
    requires
        v.wf(),
        v.contains(px, py),
    ensures
        ({
            let w = v.render(fragments);
            &&& w.wf()
            &&& w.width == v.width
            &&& w.height == v.height
            &&& w.background == v.background
            &&& w.current == v.current
            &&& w.depth(px, py) <= v.depth(px, py)
            &&& forall|i: int|
                0 <= i < fragments.len() && (#[trigger] fragments[i]).lands_on(px, py) ==> w.depth(
                    px,
                    py,
                ) <= fragments[i].depth
            &&& {
                ||| w.pixel(px, py) == v.pixel(px, py) && w.depth(px, py) == v.depth(px, py)
                ||| exists|i: int|
                    {
                        &&& 0 <= i < fragments.len()
                        &&& (#[trigger] fragments[i]).lands_on(px, py)
                        &&& fragments[i].depth < v.depth(px, py)
                        &&& w.depth(px, py) == fragments[i].depth
                        &&& w.pixel(px, py) == fragments[i].color.unwrap().packed()
                        &&& forall|j: int|
                            0 <= j < i && (#[trigger] fragments[j]).lands_on(px, py)
                                ==> fragments[i].depth < fragments[j].depth
                    }
            }
        }),
    decreases fragments.len(),
{
    if fragments.len() > 0 {
        let earlier = fragments.drop_last();
        let f = fragments.last();
        let prev = v.render(earlier);
        let w = v.render(fragments);
        lemma_render_keeps_nearest(v, earlier, px, py);
        if f.color.is_some() {
            lemma_write_cell(prev, f.x as int, f.y as int, f.color.unwrap(), f.depth, px, py);
        }
        let last = fragments.len() - 1;
        lemma_offset_bounds(prev.width, prev.height, px, py);
        assert(depth_is_ordered(prev.depth(px, py) as int));
        assert(w == prev.accept(f));
        assert(w.depth(px, py) <= prev.depth(px, py));
        assert forall|i: int|
            0 <= i < fragments.len() && (#[trigger] fragments[i]).lands_on(
                px,
                py,
            ) implies w.depth(px, py) <= fragments[i].depth by {
            if i < last {
                assert(earlier[i] == fragments[i]);
            }
        }
        if f.lands_on(px, py) && prev.passes(px, py, f.depth) {
            assert(fragments[last].lands_on(px, py));
            assert forall|j: int|
                0 <= j < last && (#[trigger] fragments[j]).lands_on(
                    px,
                    py,
                ) implies fragments[last].depth < fragments[j].depth by {
                assert(earlier[j] == fragments[j]);
            }
        } else {
            assert(w.pixel(px, py) == prev.pixel(px, py));
            assert(w.depth(px, py) == prev.depth(px, py));
            if !(prev.pixel(px, py) == v.pixel(px, py) && prev.depth(px, py) == v.depth(px, py)) {
                let i = choose|i: int|
                    {
                        &&& 0 <= i < earlier.len()
                        &&& (#[trigger] earlier[i]).lands_on(px, py)
                        &&& earlier[i].depth < v.depth(px, py)
                        &&& prev.depth(px, py) == earlier[i].depth
                        &&& prev.pixel(px, py) == earlier[i].color.unwrap().packed()
                        &&& forall|j: int|
                            0 <= j < i && (#[trigger] earlier[j]).lands_on(px, py)
                                ==> earlier[i].depth < earlier[j].depth
                    };
                assert(fragments[i] == earlier[i]);
                assert forall|j: int|
                    0 <= j < i && (#[trigger] fragments[j]).lands_on(
                        px,
                        py,
                    ) implies fragments[i].depth < fragments[j].depth by {
                    assert(earlier[j] == fragments[j]);
                }
            }
        }
    }
}

/// Tells whether a fragment at `(x, y)` with `depth` is worth shading: one
/// that is not will be discarded whatever its color.
pub fn admits(framebuffer: &Framebuffer, x: i32, y: i32, depth: i32) -> (kept: bool)
    ensures
        kept == framebuffer@.admits(x as int, y as int, depth),
{
    x >= 0 && x < framebuffer.width() && y >= 0 && y < framebuffer.height() && is_finite(depth)
}

/// Writes shaded fragments into the framebuffer, in order. A fragment
/// outside the framebuffer, with a depth that is not a finite number, or
/// without a color is discarded; every other goes through the depth test
/// of `point`.
pub fn render(framebuffer: &mut Framebuffer, fragments: &Vec<Fragment>)
    ensures
        final(framebuffer)@ == old(framebuffer)@.render(fragments@),
{
    let mut i: usize = 0;
    while i < fragments.len()
        invariant
            i <= fragments.len(),
            framebuffer@ == old(framebuffer)@.render(fragments@.take(i as int)),
        decreases fragments.len() - i,
    {
        let fragment = fragments[i];
        proof {
            let next = fragments@.take(i + 1);
            assert(next.drop_last() =~= fragments@.take(i as int));
            assert(next.last() == fragment);
        }
        if admits(framebuffer, fragment.x, fragment.y, fragment.depth) {
            if let Some(color) = fragment.color {
                framebuffer.point(fragment.x, fragment.y, color, fragment.depth);
            }
        }
        i += 1;
    }
    proof {
        assert(fragments@.take(fragments.len() as int) =~= fragments@);
    }
}

/// Draws the closed path through `points` at one depth: a line from every
/// point to the next, and a line from the last point back to the first.
pub fn draw_closed_path(
    framebuffer: &mut Framebuffer,
    points: &Vec<ScreenPoint>,
    color: Color,
    depth: i32,
)
    ensures
        final(framebuffer)@ == old(framebuffer)@.draw_closed_path(points@, color, depth),
{
    if points.len() == 0 {
        return ;
    }
    let mut i: usize = 1;
    while i < points.len()
        invariant
            1 <= i <= points.len(),
            framebuffer@ == old(framebuffer)@.draw_path(points@, color, depth, (i - 1) as nat),
        decreases points.len() - i,
    {
        framebuffer.draw_line_with_depth(
            points[i - 1].x,
            points[i - 1].y,
            points[i].x,
            points[i].y,
            color,
            depth,
        );
        i += 1;
    }
    let last: usize = points.len() - 1;
    framebuffer.draw_line_with_depth(
        points[last].x,
        points[last].y,
        points[0].x,
        points[0].y,
        color,
        depth,
    );
}

} // verus!
