//! The shape of a decoded frame, as the drawing of a film needs it.
//!
//! A frame comes in one of two arrangements of planes, and the panels over a
//! film read a small copy of it laid down in the film's own proportion.

use vstd::prelude::*;

verus! {

/// How long the longer edge of the film laid down for the panels is.
///
/// Small is the point rather than a compromise: a panel shows the film through
/// frosted glass, and the shrinking is the frosting.
pub const BEHIND_EDGE: u32 = 96;

/// How the planes of one frame are arranged.
#[derive(Debug, Clone, Copy, PartialEq, Eq, Structural)]
pub enum Layout {
    /// Luma, then blue-difference and red-difference in planes of their own,
    /// each half as wide and half as tall. What a software decoder produces.
    Three,
    /// Luma, then one plane holding both differences side by side. What comes
    /// back from the hardware.
    Two,
}

/// The pixel formats a decoder hands over, as far as drawing tells them
/// apart.
#[derive(Debug, Clone, Copy, PartialEq, Eq, Structural)]
pub enum PixelFormat {
    /// Planar 4:2:0 in studio levels.
    Yuv420p,
    /// Planar 4:2:0 in full levels.
    Yuvj420p,
    /// Luma and one interleaved plane of chroma.
    Nv12,
    /// Anything else, which the player converts before it gets here.
    Other,
}

/// One edge of the small copy: in proportion to the longer edge held at
/// `BEHIND_EDGE`, rounded up, and never nought or more than that.
pub open spec fn shrunk(edge: int, longer: int) -> int {
    let up = (edge * BEHIND_EDGE + longer - 1) / longer;
    if up < 1 {
        1
    } else if up > BEHIND_EDGE {
        BEHIND_EDGE as int
    } else {
        up
    }
}

/// The longer edge of a frame, and one where the frame has none.
pub open spec fn longer_edge(width: u32, height: u32) -> int {
    let longer = if width >= height {
        width as int
    } else {
        height as int
    };
    if longer < 1 {
        1
    } else {
        longer
    }
}

/// The size the film is laid down at for the panels.
///
/// In the film's own proportion, not a square, and never nought in either
/// direction, because a texture of no width is not a texture.
pub fn small_enough(width: u32, height: u32) -> (size: (u32, u32))
    requires
        width * BEHIND_EDGE <= u32::MAX,
        height * BEHIND_EDGE <= u32::MAX,
    ensures
        size.0 == shrunk(width as int, longer_edge(width, height)),
        size.1 == shrunk(height as int, longer_edge(width, height)),
{
    let longer = if width >= height {
        width
    } else {
        height
    };
    let longer = if longer < 1 {
        1
    } else {
        longer
    };
    (shrink(width, longer), shrink(height, longer))
}

fn shrink(edge: u32, longer: u32) -> (small: u32)
    requires
        edge * BEHIND_EDGE <= u32::MAX,
        longer >= 1,
    ensures
        small == shrunk(edge as int, longer as int),
{
    let scaled = edge * BEHIND_EDGE;
    let up = scaled / longer + if scaled % longer == 0 {
        0
    } else {
        1
    };
    proof {
        let n = scaled as int;
        let d = longer as int;
        vstd::arithmetic::div_mod::lemma_fundamental_div_mod(n, d);
        let q = n / d;
        let r = n % d;
        if r == 0 {
            assert(n + d - 1 == q * d + (d - 1)) by (nonlinear_arith)
                requires
                    n == q * d + r,
                    r == 0,
            ;
            vstd::arithmetic::div_mod::lemma_fundamental_div_mod_converse(n + d - 1, d, q, d - 1);
        } else {
            assert(n + d - 1 == (q + 1) * d + (r - 1)) by (nonlinear_arith)
                requires
                    n == q * d + r,
            ;
            vstd::arithmetic::div_mod::lemma_fundamental_div_mod_converse(
                n + d - 1,
                d,
                q + 1,
                r - 1,
            );
        }
    }
    if up < 1 {
        1
    } else if up > BEHIND_EDGE {
        BEHIND_EDGE
    } else {
        up
    }
}

/// How many of the three textures an arrangement really uses.
pub fn planes_of(layout: Layout) -> (planes: usize)
    ensures
        planes == match layout {
            Layout::Three => 3usize,
            Layout::Two => 2usize,
        },
{
    match layout {
        Layout::Three => 3,
        Layout::Two => 2,
    }
}

/// Which arrangement of planes a pixel format is, or `None` for one this does
/// not draw.
pub fn layout_of(format: PixelFormat) -> (layout: Option<Layout>)
    ensures
        layout == layout_of_spec(format),
{
    match format {
        PixelFormat::Yuv420p | PixelFormat::Yuvj420p => Some(Layout::Three),
        PixelFormat::Nv12 => Some(Layout::Two),
        PixelFormat::Other => None,
    }
}

/// Whether a decoded frame can be drawn as it stands, or has to be converted
/// first. Asked by the player, so the two cannot disagree about what this
/// draws.
pub fn draws(format: PixelFormat) -> (drawn: bool)
    ensures
        drawn == (layout_of_spec(format) is Some),
{
    layout_of(format).is_some()
}

/// Which arrangement of planes a pixel format is.
pub open spec fn layout_of_spec(format: PixelFormat) -> Option<Layout> {
    match format {
        PixelFormat::Yuv420p | PixelFormat::Yuvj420p => Some(Layout::Three),
        PixelFormat::Nv12 => Some(Layout::Two),
        PixelFormat::Other => None,
    }
}

/// The film laid down for the panels is small and never nothing: each edge
/// is at least one and at most `BEHIND_EDGE`, and the longer edge of a film
/// that has one is exactly `BEHIND_EDGE`.
pub proof fn law_laid_down_small(width: u32, height: u32)
    ensures
        1 <= shrunk(width as int, longer_edge(width, height)) <= BEHIND_EDGE,
        1 <= shrunk(height as int, longer_edge(width, height)) <= BEHIND_EDGE,
        width >= height && width > 0 ==> shrunk(width as int, longer_edge(width, height))
            == BEHIND_EDGE,
        height >= width && height > 0 ==> shrunk(height as int, longer_edge(width, height))
            == BEHIND_EDGE,
{
    let longer = longer_edge(width, height);
    assert(longer * BEHIND_EDGE + longer - 1 == BEHIND_EDGE * longer + (longer - 1))
        by (nonlinear_arith);
    vstd::arithmetic::div_mod::lemma_fundamental_div_mod_converse(
        longer * BEHIND_EDGE + longer - 1,
        longer,
        BEHIND_EDGE as int,
        longer - 1,
    );
}

} // verus!
