//! Sprite compositing: blitting an image into a framebuffer at a
//! position, clipped to the screen, with an optional transparent color
//! key.  The contract pins every pixel of the result.

use vstd::prelude::*;

use crate::{Color, Image, Point};

verus! {

/// A framebuffer of row-major RGB pixels.
#[derive(Debug)]
pub struct Screen {
    pub width: usize,
    pub height: usize,
    pub pixels: Vec<Color>,
}

impl Screen {
    /// One pixel per cell.
    pub open spec fn wf(&self) -> bool {
        self.pixels@.len() == self.width * self.height
    }
}

/// The sprite cell that lands on screen coordinate `(x, y)` exists.
pub open spec fn covered(iw: int, ih: int, pos: Point, x: int, y: int) -> bool {
    &&& pos.x <= x < pos.x + iw
    &&& pos.y <= y < pos.y + ih
}

/// Row-major index of the sprite cell that lands on `(x, y)`.
pub open spec fn source_index(iw: int, pos: Point, x: int, y: int) -> int {
    (y - pos.y) * iw + (x - pos.x)
}

/// Whether a sprite pixel is drawn: every pixel without a color key, and
/// every pixel that differs from the key with one.
pub open spec fn keeps(c: Color, key: Option<&Color>) -> bool {
    match key {
        None => true,
        Some(t) => c != *t,
    }
}

/// Row-major coordinates map to distinct cells.
proof fn lemma_rowmajor_injective(w: int, x1: int, y1: int, x2: int, y2: int)
    requires
        w > 0,
        0 <= x1 < w,
        0 <= x2 < w,
        y1 * w + x1 == y2 * w + x2,
    ensures
        x1 == x2 && y1 == y2,
{
    assert(x1 == x2 && y1 == y2) by (nonlinear_arith)
        requires
            w > 0,
            0 <= x1 < w,
            0 <= x2 < w,
            y1 * w + x1 == y2 * w + x2,
    ;
}

/// A row-major index stays inside the buffer.
proof fn lemma_rowmajor_bound(w: int, h: int, x: int, y: int)
    requires
        0 <= x < w,
        0 <= y < h,
    ensures
        0 <= y * w + x < w * h,
{
    assert(0 <= y * w + x < w * h) by (nonlinear_arith)
        requires
            0 <= x < w,
            0 <= y < h,
    ;
}

/// Draws `image` into `screen` with its top-left corner at `position`,
/// clipped to the screen; with a transparent color, pixels equal to it are
/// skipped.  Every screen pixel under a drawn sprite cell becomes that
/// cell; every other pixel keeps its value.
#[verifier::rlimit(100)]
#[verifier::spinoff_prover]
pub fn draw_image(
    screen: &mut Screen,
    image: &Image,
    position: &Point,
    transparent_color: Option<&Color>,
)
    requires
        old(screen).wf(),
        image.wf(),
        old(screen).width <= i32::MAX,
        old(screen).height <= i32::MAX,
        image.width <= i32::MAX,
        image.height <= i32::MAX,
        position.x + image.width <= i32::MAX,
        position.y + image.height <= i32::MAX,
    ensures
        final(screen).wf(),
        final(screen).width == old(screen).width,
        final(screen).height == old(screen).height,
        final(screen).pixels@.len() == old(screen).pixels@.len(),
        forall|x: int, y: int|
            #![trigger final(screen).pixels@[y * old(screen).width + x]]
            0 <= x < old(screen).width && 0 <= y < old(screen).height
                ==> final(screen).pixels@[y * old(screen).width + x] == (if covered(
                image.width as int,
                image.height as int,
                *position,
                x,
                y,
            ) && keeps(
                image.pixels@[source_index(image.width as int, *position, x, y)],
                transparent_color,
            ) {
                image.pixels@[source_index(image.width as int, *position, x, y)]
            } else {
                old(screen).pixels@[y * old(screen).width + x]
            }),
{
    let swi: i32 = screen.width as i32;
    let shi: i32 = screen.height as i32;
    let iw = image.width;
    let ghost sw = screen.width as int;
    let ghost sh = screen.height as int;
    let ghost ihg = image.height as int;
    let ghost pos = *position;
    let ghost oldpix = screen.pixels@;
    let p0x: i32 = if position.x < 0 {
        0
    } else if position.x > swi {
        swi
    } else {
        position.x
    };
    let p0y: i32 = if position.y < 0 {
        0
    } else if position.y > shi {
        shi
    } else {
        position.y
    };
    let ex: i32 = position.x + (image.width as i32);
    let ey: i32 = position.y + (image.height as i32);
    let p1x: i32 = if ex < 0 {
        0
    } else if ex > swi {
        swi
    } else {
        ex
    };
    let p1y: i32 = if ey < 0 {
        0
    } else if ey > shi {
        shi
    } else {
        ey
    };
    if p1x > p0x {
        let mut sy: i32 = p0y;
        while sy < p1y
            invariant
                p0y <= sy <= p1y || (sy == p0y && p1y <= p0y),
                screen.width == old(screen).width,
                screen.height == old(screen).height,
                screen.pixels@.len() == oldpix.len(),
                oldpix == old(screen).pixels@,
                old(screen).wf(),
                image.wf(),
                sw == old(screen).width as int,
                sh == old(screen).height as int,
                iw == image.width,
                ihg == image.height as int,
                pos == *position,
                sw <= i32::MAX && sh <= i32::MAX,
                iw <= i32::MAX && ihg <= i32::MAX,
                pos.x + iw <= i32::MAX && pos.y + ihg <= i32::MAX,
                0 <= p0x < p1x <= sw,
                0 <= p0y && p1y <= sh,
                p0x == pos.x || (p0x == 0 && pos.x <= 0),
                p1x == pos.x + iw || (p1x == sw && pos.x + iw >= sw),
                p1y > p0y ==> (p0y == pos.y || (p0y == 0 && pos.y <= 0)),
                p1y > p0y ==> (p1y == pos.y + ihg || (p1y == sh && pos.y + ihg >= sh)),
                forall|x: int, y: int|
                    #![trigger screen.pixels@[y * sw + x]]
                    0 <= x < sw && 0 <= y < sh ==> screen.pixels@[y * sw + x] == (if covered(
                        iw as int,
                        ihg,
                        pos,
                        x,
                        y,
                    ) && y < sy && keeps(
                        image.pixels@[source_index(iw as int, pos, x, y)],
                        transparent_color,
                    ) {
                        image.pixels@[source_index(iw as int, pos, x, y)]
                    } else {
                        oldpix[y * sw + x]
                    }),
            decreases p1y - sy,
        {
            let mut sx: i32 = p0x;
            while sx < p1x
                invariant
                    p0x <= sx <= p1x,
                    p0y <= sy < p1y,
                    screen.width == old(screen).width,
                    screen.height == old(screen).height,
                    screen.pixels@.len() == oldpix.len(),
                    oldpix == old(screen).pixels@,
                    old(screen).wf(),
                    image.wf(),
                    sw == old(screen).width as int,
                    sh == old(screen).height as int,
                    iw == image.width,
                    ihg == image.height as int,
                    pos == *position,
                    sw <= i32::MAX && sh <= i32::MAX,
                    iw <= i32::MAX && ihg <= i32::MAX,
                    pos.x + iw <= i32::MAX && pos.y + ihg <= i32::MAX,
                    0 <= p0x < p1x <= sw,
                    0 <= p0y && p1y <= sh,
                    p0x == pos.x || (p0x == 0 && pos.x <= 0),
                    p1x == pos.x + iw || (p1x == sw && pos.x + iw >= sw),
                    p0y == pos.y || (p0y == 0 && pos.y <= 0),
                    p1y == pos.y + ihg || (p1y == sh && pos.y + ihg >= sh),
                    forall|x: int, y: int|
                        #![trigger screen.pixels@[y * sw + x]]
                        0 <= x < sw && 0 <= y < sh ==> screen.pixels@[y * sw + x] == (if covered(
                            iw as int,
                            ihg,
                            pos,
                            x,
                            y,
                        ) && (y < sy || (y == sy && x < sx)) && keeps(
                            image.pixels@[source_index(iw as int, pos, x, y)],
                            transparent_color,
                        ) {
                            image.pixels@[source_index(iw as int, pos, x, y)]
                        } else {
                            oldpix[y * sw + x]
                        }),
                decreases p1x - sx,
            {
                proof {
                    lemma_rowmajor_bound(sw, sh, sx as int, sy as int);
                    lemma_rowmajor_bound(
                        iw as int,
                        ihg,
                        sx - pos.x,
                        sy - pos.y,
                    );
                }
                let plen: usize = screen.pixels.len();
                proof {
                    assert(plen == sw * sh);
                    assert((sy as int) * sw + (sx as int) < plen);
                }
                let di: usize = (sy as usize) * screen.width + (sx as usize);
                let dy: usize = ((sy as i64) - (position.y as i64)) as usize;
                let dx: usize = ((sx as i64) - (position.x as i64)) as usize;
                let ilen: usize = image.pixels.len();
                proof {
                    assert(ilen == (iw as int) * ihg);
                    assert(dy as int == sy - pos.y && dx as int == sx - pos.x);
                    lemma_rowmajor_bound(iw as int, ihg, dx as int, dy as int);
                    assert((dy as int) * (iw as int) + (dx as int) < ilen);
                }
                let si: usize = dy * iw + dx;
                let src = image.pixels[si];
                let draw: bool = match transparent_color {
                    None => true,
                    Some(t) => !(src.r == t.r && src.g == t.g && src.b == t.b),
                };
                let ghost prev = screen.pixels@;
                if draw {
                    screen.pixels[di] = src;
                }
                proof {
                    assert(keeps(src, transparent_color) == draw);
                    assert forall|x: int, y: int|
                        #![trigger screen.pixels@[y * sw + x]]
                        0 <= x < sw && 0 <= y < sh implies screen.pixels@[y * sw + x] == (
                    if covered(iw as int, ihg, pos, x, y) && (y < sy || (y == sy && x < sx + 1))
                        && keeps(
                        image.pixels@[source_index(iw as int, pos, x, y)],
                        transparent_color,
                    ) {
                        image.pixels@[source_index(iw as int, pos, x, y)]
                    } else {
                        oldpix[y * sw + x]
                    }) by {
                        lemma_rowmajor_bound(sw, sh, x, y);
                        if y * sw + x == di as int {
                            lemma_rowmajor_injective(sw, x, y, sx as int, sy as int);
                        } else {
                            assert(screen.pixels@[y * sw + x] == prev[y * sw + x]);
                            if x == sx as int && y == sy as int {
                                lemma_rowmajor_injective(sw, x, y, sx as int, sy as int);
                            }
                        }
                    }
                }
                sx = sx + 1;
            }
            sy = sy + 1;
            proof {
                assert forall|x: int, y: int|
                    #![trigger screen.pixels@[y * sw + x]]
                    0 <= x < sw && 0 <= y < sh implies screen.pixels@[y * sw + x] == (if covered(
                    iw as int,
                    ihg,
                    pos,
                    x,
                    y,
                ) && y < sy && keeps(
                    image.pixels@[source_index(iw as int, pos, x, y)],
                    transparent_color,
                ) {
                    image.pixels@[source_index(iw as int, pos, x, y)]
                } else {
                    oldpix[y * sw + x]
                }) by {
                    if covered(iw as int, ihg, pos, x, y) && y == sy - 1 {
                        assert(p0x <= x < p1x);
                    }
                }
            }
        }
        proof {
            assert forall|x: int, y: int|
                #![trigger screen.pixels@[y * sw + x]]
                0 <= x < sw && 0 <= y < sh && covered(iw as int, ihg, pos, x, y) implies p0y <= y
                < p1y by {}
        }
    } else {
        proof {
            assert forall|x: int, y: int|
                0 <= x < sw && 0 <= y < sh implies !covered(iw as int, ihg, pos, x, y) by {}
        }
    }
}

} // verus!
