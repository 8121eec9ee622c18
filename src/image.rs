//! The plain-text PPM form of a rendered image.
use vstd::arithmetic::div_mod::{lemma_fundamental_div_mod_converse, lemma_mod_bound};
use vstd::prelude::*;

verus! {

/// A display pixel: three channels in `0..=255`.
#[derive(Clone, Copy, Debug, PartialEq, Eq, Structural)]
pub struct Rgb {
    pub r: u8,
    pub g: u8,
    pub b: u8,
}

/// ASCII digits of `n` in base ten, without leading zeros.
pub open spec fn decimal(n: nat) -> Seq<u8>
    decreases n,
{
    if n < 10 {
        seq![(48 + n) as u8]
    } else {
        decimal(n / 10).push((48 + n % 10) as u8)
    }
}

/// The plain-PPM magic number, the width and height, and the largest channel
/// value, on three lines.
pub open spec fn header_text(width: nat, height: nat) -> Seq<u8> {
    seq![80u8, 51u8, 10u8] + decimal(width) + seq![32u8] + decimal(height) + seq![10u8, 50u8, 53u8, 53u8, 10u8]
}

/// One pixel's line: its channels separated by spaces.
pub open spec fn pixel_text(p: Rgb) -> Seq<u8> {
    decimal(p.r as nat) + seq![32u8] + decimal(p.g as nat) + seq![32u8] + decimal(p.b as nat) + seq![10u8]
}

/// Where in a bottom-up, row-major pixel array the `k`-th pixel written
/// lies: rows go from the top down, each from left to right.
pub open spec fn written_index(width: int, height: int, k: int) -> int {
    (height - 1 - k / width) * width + k % width
}

/// The lines of the first `n` pixels written.
pub open spec fn body_text(pixels: Seq<Rgb>, width: int, height: int, n: int) -> Seq<u8>
    decreases n,
{
    if n <= 0 {
        seq![]
    } else {
        body_text(pixels, width, height, n - 1) + pixel_text(pixels[written_index(width, height, n - 1)])
    }
}

fn push_decimal(out: &mut Vec<u8>, n: u32)
    ensures
        final(out)@ == old(out)@ + decimal(n as nat),
    decreases n,
{
    if n >= 10 {
        push_decimal(out, n / 10);
    }
    out.push((48 + n % 10) as u8);
    proof {
        if n < 10 {
            assert(decimal(n as nat) == seq![(48 + n) as u8]);
        }
        assert(old(out)@ + decimal(n as nat) =~= final(out)@) by {
            if n >= 10 {
                assert(decimal(n as nat) == decimal((n / 10) as nat).push((48 + n % 10) as u8));
            }
        }
    }
}

/// The three header lines of an image of `width` by `height` pixels.
pub fn ppm_header(width: u32, height: u32) -> (r: Vec<u8>)
    ensures
        r@ == header_text(width as nat, height as nat),
{
    let mut out: Vec<u8> = Vec::new();
    out.push(80);
    out.push(51);
    out.push(10);
    push_decimal(&mut out, width);
    out.push(32);
    push_decimal(&mut out, height);
    out.push(10);
    out.push(50);
    out.push(53);
    out.push(53);
    out.push(10);
    assert(out@ =~= header_text(width as nat, height as nat));
    out
}

fn push_pixel(out: &mut Vec<u8>, p: Rgb)
    ensures
        final(out)@ == old(out)@ + pixel_text(p),
{
    push_decimal(out, p.r as u32);
    out.push(32);
    push_decimal(out, p.g as u32);
    out.push(32);
    push_decimal(out, p.b as u32);
    out.push(10);
    assert(final(out)@ =~= old(out)@ + pixel_text(p));
}

/// One pixel's line of the image.
pub fn pixel_line(p: Rgb) -> (r: Vec<u8>)
    ensures
        r@ == pixel_text(p),
{
    let mut out: Vec<u8> = Vec::new();
    push_pixel(&mut out, p);
    assert(out@ =~= pixel_text(p));
    out
}

/// The whole image file. `pixels[j * width + i]` is the pixel in column `i`
/// of row `j`, rows counted from the bottom; the file lists rows from the
/// top down, each from left to right.
pub fn image_text(width: u32, height: u32, pixels: &Vec<Rgb>) -> (r: Vec<u8>)
    requires
        pixels.len() == width as int * height as int,
    ensures
        r@ == header_text(width as nat, height as nat) + body_text(
            pixels@,
            width as int,
            height as int,
            width as int * height as int,
        ),
{
    let mut out = ppm_header(width, height);
    let ghost head = out@;
    let w = width as usize;
    let mut row: usize = height as usize;
    let mut k: usize = 0;
    assert(out@ =~= head + body_text(pixels@, width as int, height as int, 0));
    while row > 0
        invariant
            w == width,
            row <= height,
            k == (height - row) * w,
            pixels.len() == width as int * height as int,
            out@ == head + body_text(pixels@, width as int, height as int, k as int),
        decreases row,
    {
        row = row - 1;
        let mut i: usize = 0;
        assert(k + w <= pixels.len()) by (nonlinear_arith)
            requires
                k == (height - row - 1) * w,
                row < height,
                pixels.len() == w * height,
        ;
        assert((row + 1) * w <= pixels.len()) by (nonlinear_arith)
            requires
                row < height,
                pixels.len() == w * height,
        ;
        while i < w
            invariant
                w == width,
                row < height,
                i <= w,
                k == (height - row - 1) * w + i,
                (row + 1) * w <= pixels.len(),
                k + (w - i) <= pixels.len(),
                pixels.len() == width as int * height as int,
                out@ == head + body_text(pixels@, width as int, height as int, k as int),
            decreases w - i,
        {
            assert(row * w + i < pixels.len()) by (nonlinear_arith)
                requires
                    (row + 1) * w <= pixels.len(),
                    i < w,
            ;
            let idx = row * w + i;
            proof {
                assert((height - row - 1) * w + i == k);
                lemma_fundamental_div_mod_converse(k as int, w as int, (height - row - 1) as int, i as int);
                assert(written_index(width as int, height as int, k as int) == idx);
            }
            push_pixel(&mut out, pixels[idx]);
            assert(out@ =~= head + body_text(pixels@, width as int, height as int, k + 1));
            i = i + 1;
            k = k + 1;
        }
        assert(k == (height - row) * w) by (nonlinear_arith)
            requires
                k == (height - row - 1) * w + w,
        ;
    }
    assert(k == width as int * height as int) by (nonlinear_arith)
        requires
            k == (height - row) * w,
            row == 0,
            w == width,
    ;
    out
}

} // verus!
