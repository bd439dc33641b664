//! Whole-image filters. Each takes one image and gives one image of the same
//! size; none touches alpha.

use vstd::prelude::*;
use crate::color::{Color, Image, Pixel};
use crate::dither::{dithered, lemma_dither_keeps_grid, on_grid, reduced};
use crate::k_means::{
    centroid_or, closest, is_palette_of, k_means, mean_color, nearest_index, QuantizeError,
};

verus! {

/// The luminance of a colour: 0.2126 red, 0.7152 green and 0.0722 blue, in
/// ten-thousandths and rounded down.
pub open spec fn luma(c: Color) -> int {
    (2126 * c.r + 7152 * c.g + 722 * c.b) / 10000
}

/// A pixel in shades of grey: every colour channel holds the luminance.
pub open spec fn grey(p: Pixel) -> Pixel {
    Pixel { r: luma(p.color()) as u8, g: luma(p.color()) as u8, b: luma(p.color()) as u8, a: p.a }
}

/// The negative of a pixel.
pub open spec fn inverted(p: Pixel) -> Pixel {
    Pixel { r: (255 - p.r) as u8, g: (255 - p.g) as u8, b: (255 - p.b) as u8, a: p.a }
}

/// A pixel cut down to the coarse grid, without any diffusion.
pub open spec fn posterized(p: Pixel) -> Pixel {
    Pixel {
        r: reduced(p.r as int, 0) as u8,
        g: reduced(p.g as int, 1) as u8,
        b: reduced(p.b as int, 2) as u8,
        a: p.a,
    }
}

/// A pixel moved onto a non-empty palette; a fully transparent pixel stays
/// as it is.
pub open spec fn recolored(p: Pixel, palette: Seq<Color>) -> Pixel {
    if p.a > 0 {
        p.with_color(palette[nearest_index(p.color(), palette)])
    } else {
        p
    }
}

/// A pixel painted in `c`; a fully transparent pixel stays as it is.
pub open spec fn painted(p: Pixel, c: Color) -> Pixel {
    if p.a > 0 {
        p.with_color(c)
    } else {
        p
    }
}

/// The colours of all pixels, alpha left out.
pub open spec fn colors_of(px: Seq<Pixel>) -> Seq<Color> {
    Seq::new(px.len(), |i: int| px[i].color())
}

/// The colours of the pixels that are not fully transparent, in order.
pub open spec fn visible(px: Seq<Pixel>) -> Seq<Color>
    decreases px.len(),
{
    if px.len() == 0 {
        Seq::empty()
    } else if px.last().a > 0 {
        visible(px.drop_last()).push(px.last().color())
    } else {
        visible(px.drop_last())
    }
}

/// Every pixel turned grey.
pub open spec fn grey_all(px: Seq<Pixel>) -> Seq<Pixel> {
    Seq::new(px.len(), |i: int| grey(px[i]))
}

/// Every pixel inverted.
pub open spec fn inverted_all(px: Seq<Pixel>) -> Seq<Pixel> {
    Seq::new(px.len(), |i: int| inverted(px[i]))
}

/// Every pixel cut down to the coarse grid.
pub open spec fn posterized_all(px: Seq<Pixel>) -> Seq<Pixel> {
    Seq::new(px.len(), |i: int| posterized(px[i]))
}

/// Every pixel moved onto `palette`.
pub open spec fn recolored_all(px: Seq<Pixel>, palette: Seq<Color>) -> Seq<Pixel> {
    Seq::new(px.len(), |i: int| recolored(px[i], palette))
}

/// Every visible pixel painted in the mean colour of the visible pixels;
/// an image without a visible pixel stays as it is.
pub open spec fn averaged_all(px: Seq<Pixel>) -> Seq<Pixel> {
    if visible(px).len() == 0 {
        px
    } else {
        Seq::new(px.len(), |i: int| painted(px[i], mean_color(visible(px))))
    }
}

/// `out` is `px` recoloured with a palette that clustering the colours of
/// `px` into at most `k` colours can return.
pub open spec fn is_recoloring(px: Seq<Pixel>, k: int, out: Seq<Pixel>) -> bool {
    exists|palette: Seq<Color>| #[trigger]
        is_palette_of(k, colors_of(px), palette) && out == recolored_all(px, palette)
}

/// Inverting twice gives every pixel back.
pub proof fn lemma_invert_involution(px: Seq<Pixel>)
    ensures
        inverted_all(inverted_all(px)) == px,
{
    assert forall|i: int| 0 <= i < px.len() implies inverted(inverted(px[i])) == px[i] by {}
    assert(inverted_all(inverted_all(px)) =~= px);
}

/// Posterizing a second time changes nothing.
pub proof fn lemma_posterize_idempotent(px: Seq<Pixel>)
    ensures
        posterized_all(posterized_all(px)) == posterized_all(px),
{
    assert forall|i: int| 0 <= i < px.len() implies posterized(posterized(px[i])) == posterized(
        px[i],
    ) by {}
    assert(posterized_all(posterized_all(px)) =~= posterized_all(px));
}

/// Depth reduction finds nothing left to cut in a posterized image and
/// leaves every pixel of it as it is.
pub proof fn lemma_dither_keeps_posterized(px: Seq<Pixel>, w: int, h: int, x: int, y: int)
    requires
        0 <= x < w,
        0 <= y < h,
        px.len() == w * h,
    ensures
        dithered(posterized_all(px), w, x, y) == posterized_all(px)[y * w + x],
{
    let cut = posterized_all(px);
    assert forall|i: int| 0 <= i < cut.len() implies on_grid(#[trigger] cut[i], 0) && on_grid(
        cut[i],
        1,
    ) && on_grid(cut[i], 2) by {
        assert(cut[i] == posterized(px[i]));
    }
    lemma_dither_keeps_grid(cut, w, h, x, y);
}

/// Neither averaging nor recolouring touches a fully transparent pixel, and
/// no filter here changes an alpha.
pub proof fn lemma_alpha_kept(px: Seq<Pixel>, palette: Seq<Color>, i: int)
    requires
        0 <= i < px.len(),
    ensures
        grey_all(px)[i].a == px[i].a,
        inverted_all(px)[i].a == px[i].a,
        posterized_all(px)[i].a == px[i].a,
        averaged_all(px)[i].a == px[i].a,
        recolored_all(px, palette)[i].a == px[i].a,
        px[i].a == 0 ==> averaged_all(px)[i] == px[i] && recolored_all(px, palette)[i] == px[i],
{
}

/// The luminance and the alpha of an 8-bit RGBA pixel, from the image
/// crate's `Pixel::to_luma_alpha`. For 8-bit channels that conversion weighs
/// red, green and blue by 2126, 7152 and 722, divides the sum by 10000
/// rounding down, and hands the alpha on; this is what the contract states.
#[verifier::external_body]
fn luma_alpha(p: Pixel) -> (la: (u8, u8))
    ensures
        la.0 == luma(p.color()),
        la.1 == p.a,
{
    let la = image::Pixel::to_luma_alpha(&image::Rgba([p.r, p.g, p.b, p.a]));
    (la.0[0], la.0[1])
}

/// Turns one pixel grey.
pub fn grey_pixel(p: Pixel) -> (q: Pixel)
    ensures
        q == grey(p),
{
    let la = luma_alpha(p);
    Pixel { r: la.0, g: la.0, b: la.0, a: la.1 }
}

/// Inverts the colour of one pixel.
pub fn invert_pixel(p: Pixel) -> (q: Pixel)
    ensures
        q == inverted(p),
{
    Pixel { r: 255 - p.r, g: 255 - p.g, b: 255 - p.b, a: p.a }
}

/// Cuts one pixel down to the coarse grid.
pub fn posterize_pixel(p: Pixel) -> (q: Pixel)
    ensures
        q == posterized(p),
{
    Pixel { r: (p.r / 32) * 32, g: (p.g / 32) * 32, b: (p.b / 64) * 64, a: p.a }
}

/// Turns every pixel grey.
pub fn grayscale(image: Image) -> (out: Image)
    ensures
        out.width == image.width,
        out.height == image.height,
        out.pixels@ == grey_all(image.pixels@),
        image.wf() ==> out.wf(),
{
    let mut pixels: Vec<Pixel> = Vec::new();
    let mut i: usize = 0;
    while i < image.pixels.len()
        invariant
            i <= image.pixels@.len(),
            pixels@.len() == i,
            forall|j: int| 0 <= j < i ==> pixels@[j] == grey(image.pixels@[j]),
        decreases image.pixels@.len() - i,
    {
        pixels.push(grey_pixel(image.pixels[i]));
        i += 1;
    }
    assert(pixels@ =~= grey_all(image.pixels@));
    Image { width: image.width, height: image.height, pixels }
}

/// Inverts the colour of every pixel.
pub fn invert(image: Image) -> (out: Image)
    ensures
        out.width == image.width,
        out.height == image.height,
        out.pixels@ == inverted_all(image.pixels@),
        image.wf() ==> out.wf(),
{
    let mut pixels: Vec<Pixel> = Vec::new();
    let mut i: usize = 0;
    while i < image.pixels.len()
        invariant
            i <= image.pixels@.len(),
            pixels@.len() == i,
            forall|j: int| 0 <= j < i ==> pixels@[j] == inverted(image.pixels@[j]),
        decreases image.pixels@.len() - i,
    {
        pixels.push(invert_pixel(image.pixels[i]));
        i += 1;
    }
    assert(pixels@ =~= inverted_all(image.pixels@));
    Image { width: image.width, height: image.height, pixels }
}

/// Cuts every pixel down to the coarse grid: red and green to multiples of
/// 32, blue to multiples of 64.
pub fn posterize(image: Image) -> (out: Image)
    ensures
        out.width == image.width,
        out.height == image.height,
        out.pixels@ == posterized_all(image.pixels@),
        image.wf() ==> out.wf(),
{
    let mut pixels: Vec<Pixel> = Vec::new();
    let mut i: usize = 0;
    while i < image.pixels.len()
        invariant
            i <= image.pixels@.len(),
            pixels@.len() == i,
            forall|j: int| 0 <= j < i ==> pixels@[j] == posterized(image.pixels@[j]),
        decreases image.pixels@.len() - i,
    {
        pixels.push(posterize_pixel(image.pixels[i]));
        i += 1;
    }
    assert(pixels@ =~= posterized_all(image.pixels@));
    Image { width: image.width, height: image.height, pixels }
}

/// The colours of the pixels of `image` that are not fully transparent.
pub fn visible_colors(image: &Image) -> (colors: Vec<Color>)
    ensures
        colors@ == visible(image.pixels@),
{
    let mut colors: Vec<Color> = Vec::new();
    let mut i: usize = 0;
    while i < image.pixels.len()
        invariant
            i <= image.pixels@.len(),
            colors@ == visible(image.pixels@.take(i as int)),
        decreases image.pixels@.len() - i,
    {
        let p = image.pixels[i];
        proof {
            assert(image.pixels@.take(i + 1).drop_last() == image.pixels@.take(i as int));
        }
        if p.a > 0 {
            colors.push(p.color());
        }
        i += 1;
    }
    proof {
        assert(image.pixels@.take(image.pixels@.len() as int) == image.pixels@);
    }
    colors
}

/// The colours of all pixels of `image`, alpha left out.
pub fn all_colors(image: &Image) -> (colors: Vec<Color>)
    ensures
        colors@ == colors_of(image.pixels@),
{
    let mut colors: Vec<Color> = Vec::new();
    let mut i: usize = 0;
    while i < image.pixels.len()
        invariant
            i <= image.pixels@.len(),
            colors@.len() == i,
            forall|j: int| 0 <= j < i ==> colors@[j] == image.pixels@[j].color(),
        decreases image.pixels@.len() - i,
    {
        colors.push(image.pixels[i].color());
        i += 1;
    }
    assert(colors@ =~= colors_of(image.pixels@));
    colors
}

/// Paints every visible pixel in the mean colour of the visible pixels. An
/// image without a visible pixel comes back as it is.
pub fn average(image: Image) -> (out: Image)
    ensures
        out.width == image.width,
        out.height == image.height,
        out.pixels@ == averaged_all(image.pixels@),
        image.wf() ==> out.wf(),
{
    let colors = visible_colors(&image);
    match centroid_or(colors.as_slice(), None) {
        None => image,
        Some(mean) => {
            let mut pixels: Vec<Pixel> = Vec::new();
            let mut i: usize = 0;
            while i < image.pixels.len()
                invariant
                    i <= image.pixels@.len(),
                    pixels@.len() == i,
                    forall|j: int| 0 <= j < i ==> pixels@[j] == painted(image.pixels@[j], mean),
                decreases image.pixels@.len() - i,
            {
                let p = image.pixels[i];
                if p.a > 0 {
                    pixels.push(p.with_color(mean));
                } else {
                    pixels.push(p);
                }
                i += 1;
            }
            assert(pixels@ =~= averaged_all(image.pixels@));
            Image { width: image.width, height: image.height, pixels }
        },
    }
}

/// Moves every visible pixel onto its nearest colour of `palette`.
pub fn recolor(image: Image, palette: &[Color]) -> (out: Image)
    requires
        palette@.len() > 0 || forall|i: int|
            0 <= i < image.pixels@.len() ==> (#[trigger] image.pixels@[i]).a == 0,
    ensures
        out.width == image.width,
        out.height == image.height,
        out.pixels@ == recolored_all(image.pixels@, palette@),
        image.wf() ==> out.wf(),
{
    let mut pixels: Vec<Pixel> = Vec::new();
    let mut i: usize = 0;
    while i < image.pixels.len()
        invariant
            i <= image.pixels@.len(),
            pixels@.len() == i,
            palette@.len() > 0 || forall|i: int|
                0 <= i < image.pixels@.len() ==> (#[trigger] image.pixels@[i]).a == 0,
            forall|j: int| 0 <= j < i ==> pixels@[j] == recolored(image.pixels@[j], palette@),
        decreases image.pixels@.len() - i,
    {
        let p = image.pixels[i];
        if p.a > 0 {
            let near = closest(p.color(), palette);
            pixels.push(p.with_color(near));
        } else {
            pixels.push(p);
        }
        i += 1;
    }
    assert(pixels@ =~= recolored_all(image.pixels@, palette@));
    Image { width: image.width, height: image.height, pixels }
}

/// Clusters the colours of all pixels into at most `k` colours and moves
/// every visible pixel onto the nearest of them. Refused when `k` is 0.
pub fn k_means_recolor(image: Image, k: usize) -> (res: Result<Image, QuantizeError>)
    ensures
        k == 0 <==> res == Err::<Image, QuantizeError>(QuantizeError::InvalidArgument),
        k > 0 <==> res is Ok,
        res matches Ok(out) ==> out.width == image.width && out.height == image.height
            && is_recoloring(image.pixels@, k as int, out.pixels@) && (image.wf() ==> out.wf()),
{
    let colors = all_colors(&image);
    match k_means(k, colors.as_slice()) {
        Err(e) => Err(e),
        Ok(palette) => {
            let ghost px = image.pixels@;
            let out = recolor(image, palette.as_slice());
            proof {
                assert(is_palette_of(k as int, colors_of(px), palette@));
                assert(out.pixels@ == recolored_all(px, palette@));
            }
            Ok(out)
        },
    }
}

} // verus!
