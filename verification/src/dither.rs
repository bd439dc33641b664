//! Depth reduction with error diffusion.
//!
//! Red and green are cut down to multiples of 32 and blue to multiples of
//! 64. Pixels are visited row by row; what a pixel loses by the cut is handed
//! on, in sixteenths, to its neighbours to the right (7), below left (3),
//! below (5) and below right (1). Each share is rounded towards zero by
//! itself, and a share that would leave the grid is lost.

use vstd::prelude::*;
use vstd::arithmetic::div_mod::lemma_fundamental_div_mod_converse;
use crate::color::{Image, Pixel};

verus! {

/// A pixel while shares are still being added to it: four signed channels.
#[derive(Clone, Copy, Debug, PartialEq, Eq, Structural)]
pub struct WorkPixel {
    pub r: i32,
    pub g: i32,
    pub b: i32,
    pub a: i32,
}

/// The grid step of red and of green.
pub const COARSE_STEP: i32 = 32;

/// The grid step of blue.
pub const BLUE_STEP: i32 = 64;

/// The quotient of `v` by a positive `d`, rounded towards zero.
pub open spec fn trunc_div(v: int, d: int) -> int {
    if v >= 0 {
        v / d
    } else {
        -((-v) / d)
    }
}

/// The multiple of `step` next to `v` on the side of zero.
pub open spec fn snap(v: int, step: int) -> int {
    trunc_div(v, step) * step
}

/// A channel value after the cut. Channels count from 0: red, green, blue,
/// alpha. Alpha is never cut.
pub open spec fn reduced(v: int, ch: int) -> int {
    if ch == 0 || ch == 1 {
        snap(v, COARSE_STEP as int)
    } else if ch == 2 {
        snap(v, BLUE_STEP as int)
    } else {
        v
    }
}

/// The part of an error that goes to a neighbour with weight `numerator`.
pub open spec fn share(error: int, numerator: int) -> int {
    trunc_div(error * numerator, 16)
}

/// One channel of a pixel, counted as in `reduced`.
pub open spec fn initial(p: Pixel, ch: int) -> int {
    if ch == 0 {
        p.r as int
    } else if ch == 1 {
        p.g as int
    } else if ch == 2 {
        p.b as int
    } else {
        p.a as int
    }
}

/// The value that channel `ch` of the pixel in column `x` of row `y` has
/// when its turn comes: its own value and the shares of the four neighbours
/// visited before it. `px` holds rows of `w` pixels.
pub open spec fn carried(px: Seq<Pixel>, w: int, x: int, y: int, ch: int) -> int
    decreases y, x + 1, 0int,
{
    if 0 <= x < w && 0 <= y {
        initial(px[y * w + x], ch) + share(error_at(px, w, x - 1, y, ch), 7) + if y >= 1 {
            share(error_at(px, w, x + 1, y - 1, ch), 3) + share(error_at(px, w, x, y - 1, ch), 5)
                + share(error_at(px, w, x - 1, y - 1, ch), 1)
        } else {
            0
        }
    } else {
        0
    }
}

/// What the cut takes from channel `ch` of the pixel in column `x` of row
/// `y`; nothing outside the grid.
pub open spec fn error_at(px: Seq<Pixel>, w: int, x: int, y: int, ch: int) -> int
    decreases y, x + 1, 1int,
{
    if 0 <= x < w && 0 <= y {
        carried(px, w, x, y, ch) - reduced(carried(px, w, x, y, ch), ch)
    } else {
        0
    }
}

/// `v` brought into the range of a channel.
pub open spec fn clamp_channel(v: int) -> u8 {
    if v < 0 {
        0u8
    } else if v > 255 {
        255u8
    } else {
        v as u8
    }
}

/// The pixel that depth reduction leaves in column `x` of row `y`.
pub open spec fn dithered(px: Seq<Pixel>, w: int, x: int, y: int) -> Pixel {
    Pixel {
        r: clamp_channel(reduced(carried(px, w, x, y, 0), 0)),
        g: clamp_channel(reduced(carried(px, w, x, y, 1), 1)),
        b: clamp_channel(reduced(carried(px, w, x, y, 2), 2)),
        a: clamp_channel(reduced(carried(px, w, x, y, 3), 3)),
    }
}

/// `e` holds the four errors of the pixel in column `x` of row `y`.
pub open spec fn is_error(e: WorkPixel, px: Seq<Pixel>, w: int, x: int, y: int) -> bool {
    &&& e.r == error_at(px, w, x, y, 0)
    &&& e.g == error_at(px, w, x, y, 1)
    &&& e.b == error_at(px, w, x, y, 2)
    &&& e.a == error_at(px, w, x, y, 3)
}

/// The size of an error: under one step, and nothing in alpha.
pub open spec fn small(e: WorkPixel) -> bool {
    &&& -COARSE_STEP < e.r < COARSE_STEP
    &&& -COARSE_STEP < e.g < COARSE_STEP
    &&& -BLUE_STEP < e.b < BLUE_STEP
    &&& e.a == 0
}

/// What the cut takes is less than one step, and nothing in alpha.
pub proof fn lemma_error_small(px: Seq<Pixel>, w: int, x: int, y: int, ch: int)
    ensures
        ch == 0 || ch == 1 ==> -COARSE_STEP < error_at(px, w, x, y, ch) < COARSE_STEP,
        ch == 2 ==> -BLUE_STEP < error_at(px, w, x, y, ch) < BLUE_STEP,
        !(0 <= ch <= 2) ==> error_at(px, w, x, y, ch) == 0,
{
}

/// The four shares of an error under one step.
pub proof fn lemma_share_small(e: int)
    ensures
        -COARSE_STEP < e < COARSE_STEP ==> -13 <= share(e, 7) <= 13 && -5 <= share(e, 3) <= 5 && -9
            <= share(e, 5) <= 9 && -1 <= share(e, 1) <= 1,
        -BLUE_STEP < e < BLUE_STEP ==> -27 <= share(e, 7) <= 27 && -11 <= share(e, 3) <= 11 && -19
            <= share(e, 5) <= 19 && -3 <= share(e, 1) <= 3,
        e == 0 ==> share(e, 7) == 0 && share(e, 3) == 0 && share(e, 5) == 0 && share(e, 1) == 0,
{
}

/// What reaches a pixel from its neighbours is bounded: at most 28 in red
/// and green, at most 60 in blue, nothing in alpha.
pub proof fn lemma_carried_near(px: Seq<Pixel>, w: int, x: int, y: int, ch: int)
    requires
        0 <= x < w,
        0 <= y,
    ensures
        ch == 0 || ch == 1 ==> -28 <= carried(px, w, x, y, ch) - initial(px[y * w + x], ch) <= 28,
        ch == 2 ==> -60 <= carried(px, w, x, y, ch) - initial(px[y * w + x], ch) <= 60,
        !(0 <= ch <= 2) ==> carried(px, w, x, y, ch) == initial(px[y * w + x], ch),
{
    lemma_error_small(px, w, x - 1, y, ch);
    lemma_share_small(error_at(px, w, x - 1, y, ch));
    if y >= 1 {
        lemma_error_small(px, w, x + 1, y - 1, ch);
        lemma_error_small(px, w, x, y - 1, ch);
        lemma_error_small(px, w, x - 1, y - 1, ch);
        lemma_share_small(error_at(px, w, x + 1, y - 1, ch));
        lemma_share_small(error_at(px, w, x, y - 1, ch));
        lemma_share_small(error_at(px, w, x - 1, y - 1, ch));
    }
}

/// Depth reduction moves no channel far: red and green end within 59 of
/// where they began, blue within 123, and alpha where it began. The same then
/// holds of the mean of any set of pixels.
pub proof fn lemma_dither_stays_near(px: Seq<Pixel>, w: int, x: int, y: int)
    requires
        0 <= x < w,
        0 <= y,
    ensures
        -59 <= dithered(px, w, x, y).r - px[y * w + x].r <= 59,
        -59 <= dithered(px, w, x, y).g - px[y * w + x].g <= 59,
        -123 <= dithered(px, w, x, y).b - px[y * w + x].b <= 123,
        dithered(px, w, x, y).a == px[y * w + x].a,
{
    lemma_carried_near(px, w, x, y, 0);
    lemma_carried_near(px, w, x, y, 1);
    lemma_carried_near(px, w, x, y, 2);
    lemma_carried_near(px, w, x, y, 3);
}

/// Channel `ch` of `p` already lies on its grid.
pub open spec fn on_grid(p: Pixel, ch: int) -> bool {
    reduced(initial(p, ch), ch) == initial(p, ch)
}

/// Where every pixel already lies on the grid the cut takes nothing, so
/// nothing is handed on and every pixel keeps its value.
pub proof fn lemma_grid_has_no_error(px: Seq<Pixel>, w: int, h: int, x: int, y: int, ch: int)
    requires
        0 <= w,
        0 <= h,
        px.len() == w * h,
        y < h,
        forall|i: int| 0 <= i < px.len() ==> on_grid(#[trigger] px[i], ch),
    ensures
        error_at(px, w, x, y, ch) == 0,
        0 <= x < w && 0 <= y ==> carried(px, w, x, y, ch) == initial(px[y * w + x], ch),
    decreases y, x + 1,
{
    if 0 <= x < w && 0 <= y {
        lemma_grid_has_no_error(px, w, h, x - 1, y, ch);
        if y >= 1 {
            lemma_grid_has_no_error(px, w, h, x + 1, y - 1, ch);
            lemma_grid_has_no_error(px, w, h, x, y - 1, ch);
            lemma_grid_has_no_error(px, w, h, x - 1, y - 1, ch);
        }
        assert(0 <= y * w + x < w * h) by (nonlinear_arith)
            requires
                0 <= x < w,
                0 <= y < h,
        ;
        assert(on_grid(px[y * w + x], ch));
    }
}

/// Depth reduction changes no pixel of an image that already lies on the
/// grid in every colour channel.
pub proof fn lemma_dither_keeps_grid(px: Seq<Pixel>, w: int, h: int, x: int, y: int)
    requires
        0 <= x < w,
        0 <= y < h,
        px.len() == w * h,
        forall|i: int|
            0 <= i < px.len() ==> on_grid(#[trigger] px[i], 0) && on_grid(px[i], 1) && on_grid(
                px[i],
                2,
            ),
    ensures
        dithered(px, w, x, y) == px[y * w + x],
{
    lemma_grid_has_no_error(px, w, h, x, y, 0);
    lemma_grid_has_no_error(px, w, h, x, y, 1);
    lemma_grid_has_no_error(px, w, h, x, y, 2);
    lemma_grid_has_no_error(px, w, h, x, y, 3);
}

/// Cuts red and green down to multiples of 32 and blue to a multiple of 64,
/// each towards zero, and keeps alpha.
pub fn to_8bit(rgb: WorkPixel) -> (cut: WorkPixel)
    ensures
        cut.r == reduced(rgb.r as int, 0),
        cut.g == reduced(rgb.g as int, 1),
        cut.b == reduced(rgb.b as int, 2),
        cut.a == rgb.a,
{
    WorkPixel {
        r: (rgb.r / COARSE_STEP) * COARSE_STEP,
        g: (rgb.g / COARSE_STEP) * COARSE_STEP,
        b: (rgb.b / BLUE_STEP) * BLUE_STEP,
        a: rgb.a,
    }
}

/// One channel of a working pixel, counted as in `reduced`.
pub open spec fn part(e: WorkPixel, ch: int) -> int {
    if ch == 0 {
        e.r as int
    } else if ch == 1 {
        e.g as int
    } else if ch == 2 {
        e.b as int
    } else {
        e.a as int
    }
}

/// The share that pixel number `j` has from its left neighbour once the
/// first `n` pixels have had their turn.
pub open spec fn from_left(px: Seq<Pixel>, w: int, j: int, n: int, ch: int) -> int {
    if j % w >= 1 && 0 <= j - 1 < n {
        share(error_at(px, w, j % w - 1, j / w, ch), 7)
    } else {
        0
    }
}

/// The share that pixel number `j` has from its neighbour above right once
/// the first `n` pixels have had their turn.
pub open spec fn from_up_right(px: Seq<Pixel>, w: int, j: int, n: int, ch: int) -> int {
    if j / w >= 1 && j % w + 1 < w && 0 <= j - w + 1 < n {
        share(error_at(px, w, j % w + 1, j / w - 1, ch), 3)
    } else {
        0
    }
}

/// The share that pixel number `j` has from its neighbour above once the
/// first `n` pixels have had their turn.
pub open spec fn from_up(px: Seq<Pixel>, w: int, j: int, n: int, ch: int) -> int {
    if j / w >= 1 && 0 <= j - w < n {
        share(error_at(px, w, j % w, j / w - 1, ch), 5)
    } else {
        0
    }
}

/// The share that pixel number `j` has from its neighbour above left once
/// the first `n` pixels have had their turn.
pub open spec fn from_up_left(px: Seq<Pixel>, w: int, j: int, n: int, ch: int) -> int {
    if j / w >= 1 && j % w >= 1 && 0 <= j - w - 1 < n {
        share(error_at(px, w, j % w - 1, j / w - 1, ch), 1)
    } else {
        0
    }
}

/// What channel `ch` of pixel number `j` holds while it waits for its turn
/// and the first `n` pixels have had theirs: its own value and the shares of
/// those of its four earlier neighbours that are among the first `n`.
pub open spec fn pending(px: Seq<Pixel>, w: int, j: int, n: int, ch: int) -> int {
    initial(px[j], ch) + from_left(px, w, j, n, ch) + from_up_right(px, w, j, n, ch) + from_up(
        px,
        w,
        j,
        n,
        ch,
    ) + from_up_left(px, w, j, n, ch)
}

/// `e` is pixel number `j` as it waits after `n` visits.
pub open spec fn is_pending(e: WorkPixel, px: Seq<Pixel>, w: int, j: int, n: int) -> bool {
    &&& e.r == pending(px, w, j, n, 0)
    &&& e.g == pending(px, w, j, n, 1)
    &&& e.b == pending(px, w, j, n, 2)
    &&& e.a == pending(px, w, j, n, 3)
}

/// `e` is pixel number `j` after its visit: cut, and not yet clamped.
pub open spec fn is_settled(e: WorkPixel, px: Seq<Pixel>, w: int, j: int) -> bool {
    &&& e.r == reduced(carried(px, w, j % w, j / w, 0), 0)
    &&& e.g == reduced(carried(px, w, j % w, j / w, 1), 1)
    &&& e.b == reduced(carried(px, w, j % w, j / w, 2), 2)
    &&& e.a == reduced(carried(px, w, j % w, j / w, 3), 3)
}

/// What the visit of pixel number `n`, in column `x`, hands to one channel
/// of pixel number `j` as its right neighbour.
pub open spec fn to_right(w: int, x: int, n: int, j: int, q: int) -> int {
    if j == n + 1 && x + 1 < w {
        share(q, 7)
    } else {
        0
    }
}

/// What that visit hands to pixel number `j` as its neighbour below left.
pub open spec fn to_down_left(w: int, h: int, x: int, y: int, n: int, j: int, q: int) -> int {
    if j == n + w - 1 && y + 1 < h && x >= 1 {
        share(q, 3)
    } else {
        0
    }
}

/// What that visit hands to pixel number `j` as its neighbour below.
pub open spec fn to_down(w: int, h: int, y: int, n: int, j: int, q: int) -> int {
    if j == n + w && y + 1 < h {
        share(q, 5)
    } else {
        0
    }
}

/// What that visit hands to pixel number `j` as its neighbour below right.
pub open spec fn to_down_right(w: int, h: int, x: int, y: int, n: int, j: int, q: int) -> int {
    if j == n + w + 1 && y + 1 < h && x + 1 < w {
        share(q, 1)
    } else {
        0
    }
}

/// What the visit of pixel number `n`, in column `x` of row `y`, hands to
/// one channel of pixel number `j`, where `q` is what the cut took from that
/// channel. A neighbour outside the grid gets nothing.
pub open spec fn handed(w: int, h: int, x: int, y: int, n: int, j: int, q: int) -> int {
    to_right(w, x, n, j, q) + to_down_left(w, h, x, y, n, j, q) + to_down(w, h, y, n, j, q)
        + to_down_right(w, h, x, y, n, j, q)
}

/// `after` is `before` with what the visit of pixel number `n` handed to
/// pixel number `j`.
pub open spec fn is_handed(
    before: WorkPixel,
    after: WorkPixel,
    quant: WorkPixel,
    w: int,
    h: int,
    x: int,
    y: int,
    n: int,
    j: int,
) -> bool {
    &&& after.r == before.r + handed(w, h, x, y, n, j, quant.r as int)
    &&& after.g == before.g + handed(w, h, x, y, n, j, quant.g as int)
    &&& after.b == before.b + handed(w, h, x, y, n, j, quant.b as int)
    &&& after.a == before.a + handed(w, h, x, y, n, j, quant.a as int)
}

/// The range that a working channel stays in between visits.
pub open spec fn roomy(e: WorkPixel) -> bool {
    &&& -64 <= e.r <= 319
    &&& -64 <= e.g <= 319
    &&& -64 <= e.b <= 319
    &&& -64 <= e.a <= 319
}

/// Pixel number `y * w + x` lies in column `x` of row `y`.
pub proof fn lemma_coords(w: int, x: int, y: int)
    requires
        0 <= x < w,
        0 <= y,
    ensures
        (y * w + x) % w == x,
        (y * w + x) / w == y,
        0 <= y * w,
{
    lemma_fundamental_div_mod_converse(y * w + x, w, y, x);
    assert(0 <= y * w) by (nonlinear_arith)
        requires
            0 <= y,
            0 <= w,
    ;
}

/// When its turn comes, a pixel holds what `carried` says.
pub proof fn lemma_turn(px: Seq<Pixel>, w: int, x: int, y: int, ch: int)
    requires
        0 <= x < w,
        0 <= y,
    ensures
        pending(px, w, y * w + x, y * w + x, ch) == carried(px, w, x, y, ch),
{
    lemma_coords(w, x, y);
    if y >= 1 {
        assert(y * w >= w) by (nonlinear_arith)
            requires
                y >= 1,
                w >= 1,
        ;
    }
}

/// A waiting pixel is never far from its own value: within 60 in the colour
/// channels, and equal to it in alpha.
pub proof fn lemma_pending_near(px: Seq<Pixel>, w: int, j: int, n: int, ch: int)
    ensures
        0 <= ch <= 2 ==> -60 <= pending(px, w, j, n, ch) - initial(px[j], ch) <= 60,
        !(0 <= ch <= 2) ==> pending(px, w, j, n, ch) == initial(px[j], ch),
{
    let x = j % w;
    let y = j / w;
    lemma_error_small(px, w, x - 1, y, ch);
    lemma_error_small(px, w, x + 1, y - 1, ch);
    lemma_error_small(px, w, x, y - 1, ch);
    lemma_error_small(px, w, x - 1, y - 1, ch);
    lemma_share_small(error_at(px, w, x - 1, y, ch));
    lemma_share_small(error_at(px, w, x + 1, y - 1, ch));
    lemma_share_small(error_at(px, w, x, y - 1, ch));
    lemma_share_small(error_at(px, w, x - 1, y - 1, ch));
}

/// The visit of a pixel adds its share to what its right neighbour has from
/// the left, and to no other pixel's.
pub proof fn lemma_left_step(px: Seq<Pixel>, w: int, x: int, y: int, j: int, ch: int)
    requires
        0 <= x < w,
        0 <= y,
        y * w + x < j,
    ensures
        from_left(px, w, j, y * w + x + 1, ch) == from_left(px, w, j, y * w + x, ch) + to_right(
            w,
            x,
            y * w + x,
            j,
            error_at(px, w, x, y, ch),
        ),
{
    lemma_coords(w, x, y);
    if j == y * w + x + 1 {
        if x + 1 < w {
            lemma_coords(w, x + 1, y);
        } else {
            assert((y + 1) * w == y * w + w) by (nonlinear_arith);
            lemma_coords(w, 0, y + 1);
        }
    }
}

/// The visit of a pixel adds its share to what its neighbour below left has
/// from above right, and to no other pixel's.
pub proof fn lemma_up_right_step(px: Seq<Pixel>, w: int, h: int, x: int, y: int, j: int, ch: int)
    requires
        0 <= x < w,
        0 <= y < h,
        y * w + x < j < w * h,
    ensures
        from_up_right(px, w, j, y * w + x + 1, ch) == from_up_right(px, w, j, y * w + x, ch)
            + to_down_left(w, h, x, y, y * w + x, j, error_at(px, w, x, y, ch)),
{
    lemma_coords(w, x, y);
    if j == y * w + x + w - 1 {
        if x >= 1 {
            assert((y + 1) * w == y * w + w) by (nonlinear_arith);
            lemma_coords(w, x - 1, y + 1);
            if y + 1 >= h {
                assert((y + 1) * w >= w * h) by (nonlinear_arith)
                    requires
                        y + 1 >= h,
                        w >= 0,
                ;
            }
        } else {
            lemma_coords(w, w - 1, y);
        }
    }
}

/// The visit of a pixel adds its share to what its neighbour below has from
/// above, and to no other pixel's.
pub proof fn lemma_up_step(px: Seq<Pixel>, w: int, h: int, x: int, y: int, j: int, ch: int)
    requires
        0 <= x < w,
        0 <= y < h,
        y * w + x < j < w * h,
    ensures
        from_up(px, w, j, y * w + x + 1, ch) == from_up(px, w, j, y * w + x, ch) + to_down(
            w,
            h,
            y,
            y * w + x,
            j,
            error_at(px, w, x, y, ch),
        ),
{
    lemma_coords(w, x, y);
    if j == y * w + x + w {
        assert((y + 1) * w == y * w + w) by (nonlinear_arith);
        lemma_coords(w, x, y + 1);
        if y + 1 >= h {
            assert((y + 1) * w >= w * h) by (nonlinear_arith)
                requires
                    y + 1 >= h,
                    w >= 0,
            ;
        }
    }
}

/// The visit of a pixel adds its share to what its neighbour below right
/// has from above left, and to no other pixel's.
pub proof fn lemma_up_left_step(px: Seq<Pixel>, w: int, h: int, x: int, y: int, j: int, ch: int)
    requires
        0 <= x < w,
        0 <= y < h,
        y * w + x < j < w * h,
    ensures
        from_up_left(px, w, j, y * w + x + 1, ch) == from_up_left(px, w, j, y * w + x, ch)
            + to_down_right(w, h, x, y, y * w + x, j, error_at(px, w, x, y, ch)),
{
    lemma_coords(w, x, y);
    if j == y * w + x + w + 1 {
        if x + 1 < w {
            assert((y + 1) * w == y * w + w) by (nonlinear_arith);
            lemma_coords(w, x + 1, y + 1);
            if y + 1 >= h {
                assert((y + 1) * w >= w * h) by (nonlinear_arith)
                    requires
                        y + 1 >= h,
                        w >= 0,
                ;
            }
        } else {
            assert((y + 2) * w == y * w + 2 * w) by (nonlinear_arith);
            lemma_coords(w, 0, y + 2);
        }
    }
}

/// One channel of a waiting pixel after the visit of pixel number
/// `y * w + x`: what it held before and what that visit handed to it.
pub proof fn lemma_pending_step(px: Seq<Pixel>, w: int, h: int, x: int, y: int, j: int, ch: int)
    requires
        0 <= x < w,
        0 <= y < h,
        y * w + x < j < w * h,
    ensures
        pending(px, w, j, y * w + x + 1, ch) == pending(px, w, j, y * w + x, ch) + handed(
            w,
            h,
            x,
            y,
            y * w + x,
            j,
            error_at(px, w, x, y, ch),
        ),
{
    lemma_left_step(px, w, x, y, j, ch);
    lemma_up_right_step(px, w, h, x, y, j, ch);
    lemma_up_step(px, w, h, x, y, j, ch);
    lemma_up_left_step(px, w, h, x, y, j, ch);
}

/// A waiting pixel after the visit of pixel number `y * w + x`, which left
/// the error `quant`: it waits as `pending` says for one visit more.
pub proof fn lemma_waiting(
    px: Seq<Pixel>,
    w: int,
    h: int,
    x: int,
    y: int,
    quant: WorkPixel,
    before: WorkPixel,
    after: WorkPixel,
    j: int,
)
    requires
        0 <= x < w,
        0 <= y < h,
        y * w + x < j < w * h,
        is_error(quant, px, w, x, y),
        is_pending(before, px, w, j, y * w + x),
        is_handed(before, after, quant, w, h, x, y, y * w + x, j),
    ensures
        is_pending(after, px, w, j, y * w + x + 1),
        roomy(after),
{
    lemma_pending_step(px, w, h, x, y, j, 0);
    lemma_pending_step(px, w, h, x, y, j, 1);
    lemma_pending_step(px, w, h, x, y, j, 2);
    lemma_pending_step(px, w, h, x, y, j, 3);
    lemma_pending_near(px, w, j, y * w + x + 1, 0);
    lemma_pending_near(px, w, j, y * w + x + 1, 1);
    lemma_pending_near(px, w, j, y * w + x + 1, 2);
    lemma_pending_near(px, w, j, y * w + x + 1, 3);
}

/// A visit hands nothing to the visited pixel or to a pixel before it.
pub proof fn lemma_untouched(
    before: WorkPixel,
    after: WorkPixel,
    quant: WorkPixel,
    w: int,
    h: int,
    x: int,
    y: int,
    n: int,
    j: int,
)
    requires
        0 <= x < w,
        j <= n,
        is_handed(before, after, quant, w, h, x, y, n, j),
    ensures
        after == before,
{
}

/// The working copy after a visit. `before` is the copy after `y * w + x`
/// visits, `mid` is `before` with the visited pixel cut, and `after` is `mid`
/// with what the visit handed on.
pub proof fn lemma_visit(
    px: Seq<Pixel>,
    w: int,
    h: int,
    x: int,
    y: int,
    quant: WorkPixel,
    before: Seq<WorkPixel>,
    mid: Seq<WorkPixel>,
    after: Seq<WorkPixel>,
)
    requires
        0 <= x < w,
        0 <= y < h,
        px.len() == w * h,
        before.len() == w * h,
        mid.len() == w * h,
        after.len() == w * h,
        is_error(quant, px, w, x, y),
        forall|j: int| 0 <= j < y * w + x ==> is_settled(#[trigger] before[j], px, w, j),
        forall|j: int|
            y * w + x <= j < w * h ==> is_pending(#[trigger] before[j], px, w, j, y * w + x),
        forall|j: int| 0 <= j < w * h ==> roomy(#[trigger] before[j]),
        forall|j: int| 0 <= j < w * h && j != y * w + x ==> #[trigger] mid[j] == before[j],
        is_settled(mid[y * w + x], px, w, y * w + x),
        roomy(mid[y * w + x]),
        forall|j: int|
            0 <= j < w * h ==> is_handed(mid[j], #[trigger] after[j], quant, w, h, x, y, y * w + x, j),
    ensures
        forall|j: int| 0 <= j < y * w + x + 1 ==> is_settled(#[trigger] after[j], px, w, j),
        forall|j: int|
            y * w + x + 1 <= j < w * h ==> is_pending(
                #[trigger] after[j],
                px,
                w,
                j,
                y * w + x + 1,
            ),
        forall|j: int| 0 <= j < w * h ==> roomy(#[trigger] after[j]),
{
    let n = y * w + x;
    assert(0 <= y * w + x < w * h) by (nonlinear_arith)
        requires
            0 <= x < w,
            0 <= y < h,
    ;
    assert forall|j: int| 0 <= j < w * h implies (if j <= n {
        is_settled(#[trigger] after[j], px, w, j)
    } else {
        is_pending(after[j], px, w, j, n + 1)
    }) && roomy(after[j]) by {
        assert(is_handed(mid[j], after[j], quant, w, h, x, y, n, j));
        if j <= n {
            lemma_untouched(mid[j], after[j], quant, w, h, x, y, n, j);
            if j < n {
                assert(mid[j] == before[j]);
            }
        } else {
            assert(mid[j] == before[j]);
            lemma_waiting(px, w, h, x, y, quant, before[j], after[j], j);
        }
    }
}

/// Adds to the pixel at `at` its share, with weight `numerator`, of the
/// error `quant`.
fn add_share(work: &mut Vec<WorkPixel>, at: usize, quant: WorkPixel, numerator: i32)
    requires
        at < old(work)@.len(),
        small(quant),
        1 <= numerator <= 7,
        -500 <= old(work)@[at as int].r <= 500,
        -500 <= old(work)@[at as int].g <= 500,
        -500 <= old(work)@[at as int].b <= 500,
        -500 <= old(work)@[at as int].a <= 500,
    ensures
        final(work)@.len() == old(work)@.len(),
        forall|j: int| 0 <= j < old(work)@.len() && j != at ==> final(work)@[j] == old(work)@[j],
        final(work)@[at as int].r == old(work)@[at as int].r + share(
            quant.r as int,
            numerator as int,
        ),
        final(work)@[at as int].g == old(work)@[at as int].g + share(
            quant.g as int,
            numerator as int,
        ),
        final(work)@[at as int].b == old(work)@[at as int].b + share(
            quant.b as int,
            numerator as int,
        ),
        final(work)@[at as int].a == old(work)@[at as int].a + share(
            quant.a as int,
            numerator as int,
        ),
{
    let a = work[at];
    assert(-448 <= quant.r * numerator <= 448 && -448 <= quant.g * numerator <= 448 && -448
        <= quant.b * numerator <= 448 && quant.a * numerator == 0) by (nonlinear_arith)
        requires
            small(quant),
            1 <= numerator <= 7,
    ;
    let moved = WorkPixel {
        r: a.r + quant.r * numerator / 16,
        g: a.g + quant.g * numerator / 16,
        b: a.b + quant.b * numerator / 16,
        a: a.a + quant.a * numerator / 16,
    };
    work[at] = moved;
}

/// Hands the error `quant` of the pixel in column `x` of row `y` on to its
/// four later neighbours, as far as they lie inside the grid.
fn spread(
    work: &mut Vec<WorkPixel>,
    w: usize,
    h: usize,
    x: usize,
    y: usize,
    idx: usize,
    quant: WorkPixel,
)
    requires
        x < w,
        y < h,
        idx == y * w + x,
        old(work)@.len() == w * h,
        small(quant),
        forall|j: int| 0 <= j < old(work)@.len() ==> roomy(#[trigger] old(work)@[j]),
    ensures
        final(work)@.len() == old(work)@.len(),
        forall|j: int|
            0 <= j < old(work)@.len() ==> is_handed(
                old(work)@[j],
                #[trigger] final(work)@[j],
                quant,
                w as int,
                h as int,
                x as int,
                y as int,
                idx as int,
                j,
            ),
{
    proof {
        assert(work.len() == w * h);
        assert(0 <= y * w && y * w + w <= w * h) by (nonlinear_arith)
            requires
                0 <= w,
                0 <= y < h,
        ;
        if y + 1 < h {
            assert(y * w + w + w <= w * h) by (nonlinear_arith)
                requires
                    0 <= w,
                    0 <= y,
                    y + 2 <= h,
            ;
        }
    }
    if x + 1 < w {
        add_share(work, idx + 1, quant, 7);
    }
    if y + 1 < h {
        if x >= 1 {
            add_share(work, idx + w - 1, quant, 3);
        }
        add_share(work, idx + w, quant, 5);
        if x + 1 < w {
            add_share(work, idx + w + 1, quant, 1);
        }
    }
}

/// A working channel brought back into eight bits.
fn clamp_to_u8(v: i32) -> (c: u8)
    ensures
        c == clamp_channel(v as int),
{
    if v < 0 {
        0
    } else if v > 255 {
        255
    } else {
        v as u8
    }
}

/// Reduces the depth of `image` and diffuses the error: the pixel in column
/// `x` of row `y` becomes `dithered(.., x, y)`. Alpha comes out as it went in.
pub fn dither_reduce(image: &Image) -> (out: Image)
    requires
        image.wf(),
    ensures
        out.wf(),
        out.width == image.width,
        out.height == image.height,
        out.pixels@.len() == image.pixels@.len(),
        forall|x: int, y: int|
            0 <= x < image.width && 0 <= y < image.height ==> #[trigger] out.at(x, y) == dithered(
                image.pixels@,
                image.width as int,
                x,
                y,
            ),
        forall|x: int, y: int|
            0 <= x < image.width && 0 <= y < image.height ==> (#[trigger] out.at(x, y)).a
                == image.at(x, y).a,
{
    let w = image.width;
    let h = image.height;
    let count = image.pixels.len();
    let ghost px = image.pixels@;
    let mut work: Vec<WorkPixel> = Vec::new();
    let mut i: usize = 0;
    while i < count
        invariant
            count == px.len(),
            px == image.pixels@,
            i <= count,
            work@.len() == i,
            forall|j: int| 0 <= j < i ==> is_pending(#[trigger] work@[j], px, w as int, j, 0),
            forall|j: int| 0 <= j < i ==> roomy(#[trigger] work@[j]),
        decreases count - i,
    {
        let p = image.pixels[i];
        work.push(WorkPixel { r: p.r as i32, g: p.g as i32, b: p.b as i32, a: p.a as i32 });
        i += 1;
    }
    let mut idx: usize = 0;
    let mut y: usize = 0;
    while y < h
        invariant
            image.wf(),
            w == image.width,
            h == image.height,
            px == image.pixels@,
            count == px.len(),
            y <= h,
            idx == y * w,
            work@.len() == count,
            forall|j: int| 0 <= j < idx ==> is_settled(#[trigger] work@[j], px, w as int, j),
            forall|j: int|
                idx <= j < count ==> is_pending(#[trigger] work@[j], px, w as int, j, idx as int),
            forall|j: int| 0 <= j < count ==> roomy(#[trigger] work@[j]),
        decreases h - y,
    {
        let mut x: usize = 0;
        while x < w
            invariant
                image.wf(),
                w == image.width,
                h == image.height,
                px == image.pixels@,
                count == px.len(),
                y < h,
                x <= w,
                idx == y * w + x,
                work@.len() == count,
                forall|j: int| 0 <= j < idx ==> is_settled(#[trigger] work@[j], px, w as int, j),
                forall|j: int|
                    idx <= j < count ==> is_pending(
                        #[trigger] work@[j],
                        px,
                        w as int,
                        j,
                        idx as int,
                    ),
                forall|j: int| 0 <= j < count ==> roomy(#[trigger] work@[j]),
            decreases w - x,
        {
            let ghost before = work@;
            proof {
                assert(y * w + x < w * h) by (nonlinear_arith)
                    requires
                        0 <= x < w,
                        0 <= y < h,
                ;
                lemma_coords(w as int, x as int, y as int);
                lemma_turn(px, w as int, x as int, y as int, 0);
                lemma_turn(px, w as int, x as int, y as int, 1);
                lemma_turn(px, w as int, x as int, y as int, 2);
                lemma_turn(px, w as int, x as int, y as int, 3);
                assert(is_pending(before[idx as int], px, w as int, idx as int, idx as int));
                assert(roomy(before[idx as int]));
            }
            let full = work[idx];
            let cut = to_8bit(full);
            work[idx] = cut;
            let quant = WorkPixel {
                r: full.r - cut.r,
                g: full.g - cut.g,
                b: full.b - cut.b,
                a: full.a - cut.a,
            };
            let ghost mid = work@;
            proof {
                assert(is_error(quant, px, w as int, x as int, y as int));
                assert(is_settled(cut, px, w as int, idx as int));
                assert(roomy(cut));
                assert forall|j: int| 0 <= j < mid.len() implies roomy(#[trigger] mid[j]) by {
                    if j != idx {
                        assert(mid[j] == before[j]);
                    }
                }
            }
            spread(&mut work, w, h, x, y, idx, quant);
            proof {
                lemma_visit(px, w as int, h as int, x as int, y as int, quant, before, mid, work@);
            }
            idx += 1;
            x += 1;
        }
        proof {
            assert((y + 1) * w == y * w + w) by (nonlinear_arith);
        }
        y += 1;
    }
    proof {
        assert(h * w == w * h) by (nonlinear_arith);
    }
    let mut pixels: Vec<Pixel> = Vec::new();
    let mut i: usize = 0;
    while i < count
        invariant
            count == px.len(),
            work@.len() == count,
            i <= count,
            pixels@.len() == i,
            forall|j: int| 0 <= j < count ==> is_settled(#[trigger] work@[j], px, w as int, j),
            forall|j: int|
                0 <= j < i ==> #[trigger] pixels@[j] == dithered(
                    px,
                    w as int,
                    j % (w as int),
                    j / (w as int),
                ),
        decreases count - i,
    {
        let e = work[i];
        pixels.push(
            Pixel {
                r: clamp_to_u8(e.r),
                g: clamp_to_u8(e.g),
                b: clamp_to_u8(e.b),
                a: clamp_to_u8(e.a),
            },
        );
        i += 1;
    }
    let out = Image { width: w, height: h, pixels };
    proof {
        assert forall|x: int, y: int| 0 <= x < w && 0 <= y < h implies #[trigger] out.at(x, y)
            == dithered(px, w as int, x, y) && out.at(x, y).a == image.at(x, y).a by {
            assert(0 <= y * w + x < w * h) by (nonlinear_arith)
                requires
                    0 <= x < w,
                    0 <= y < h,
            ;
            lemma_coords(w as int, x, y);
            lemma_dither_stays_near(px, w as int, x, y);
        }
    }
    out
}

} // verus!
