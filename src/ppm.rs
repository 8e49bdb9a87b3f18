//! The plain-text pixel format: a `P3` header, then one `r g b` line per
//! pixel in decimal.
use vstd::prelude::*;

use crate::render::Pixel;

verus! {

/// ASCII codes of the characters the format uses.
pub const DIGIT_ZERO: u8 = 48;

pub const DIGIT_TWO: u8 = 50;

pub const DIGIT_THREE: u8 = 51;

pub const DIGIT_FIVE: u8 = 53;

pub const LETTER_P: u8 = 80;

pub const SPACE: u8 = 32;

pub const NEWLINE: u8 = 10;

/// The decimal digits of `n`, most significant first, in ASCII.
pub open spec fn decimal(n: nat) -> Seq<u8>
    decreases n,
{
    if n < 10 {
        seq![(DIGIT_ZERO + n) as u8]
    } else {
        decimal(n / 10) + seq![(DIGIT_ZERO + n % 10) as u8]
    }
}

/// `P3`, the width and height, and the largest channel value 255, one item
/// per line.
pub open spec fn ppm_header(width: nat, height: nat) -> Seq<u8> {
    seq![LETTER_P, DIGIT_THREE, NEWLINE] + decimal(width) + seq![SPACE] + decimal(height) + seq![
        NEWLINE,
        DIGIT_TWO,
        DIGIT_FIVE,
        DIGIT_FIVE,
        NEWLINE,
    ]
}

pub open spec fn pixel_line(p: Pixel) -> Seq<u8> {
    decimal(p.r as nat) + seq![SPACE] + decimal(p.g as nat) + seq![SPACE] + decimal(p.b as nat)
        + seq![NEWLINE]
}

pub open spec fn pixel_lines(ps: Seq<Pixel>) -> Seq<u8>
    decreases ps.len(),
{
    if ps.len() == 0 {
        Seq::empty()
    } else {
        pixel_lines(ps.drop_last()) + pixel_line(ps.last())
    }
}

/// The whole file for an image of `width` by `height` with these pixels in
/// row-major order.
pub open spec fn ppm_of(width: nat, height: nat, ps: Seq<Pixel>) -> Seq<u8> {
    ppm_header(width, height) + pixel_lines(ps)
}

/// Appends the decimal digits of `n`.
pub fn push_decimal(out: &mut Vec<u8>, n: u32)
    ensures
        final(out)@ == old(out)@ + decimal(n as nat),
    decreases n,
{
    if n >= 10 {
        push_decimal(out, n / 10);
    }
    out.push(DIGIT_ZERO + (n % 10) as u8);
    proof {
        if n < 10 {
            assert(final(out)@ =~= old(out)@ + decimal(n as nat));
        } else {
            assert(final(out)@ =~= old(out)@ + decimal(n as nat));
        }
    }
}

/// Appends one `r g b` line.
pub fn push_pixel(out: &mut Vec<u8>, p: Pixel)
    ensures
        final(out)@ == old(out)@ + pixel_line(p),
{
    push_decimal(out, p.r as u32);
    out.push(SPACE);
    push_decimal(out, p.g as u32);
    out.push(SPACE);
    push_decimal(out, p.b as u32);
    out.push(NEWLINE);
    proof {
        assert(final(out)@ =~= old(out)@ + pixel_line(p));
    }
}

/// The file contents for an image of `width` by `height`.
pub fn ppm_text(width: u32, height: u32, pixels: &[Pixel]) -> (r: Vec<u8>)
    ensures
        r@ == ppm_of(width as nat, height as nat, pixels@),
{
    let mut out: Vec<u8> = Vec::new();
    out.push(LETTER_P);
    out.push(DIGIT_THREE);
    out.push(NEWLINE);
    push_decimal(&mut out, width);
    out.push(SPACE);
    push_decimal(&mut out, height);
    out.push(NEWLINE);
    out.push(DIGIT_TWO);
    out.push(DIGIT_FIVE);
    out.push(DIGIT_FIVE);
    out.push(NEWLINE);
    proof {
        assert(out@ =~= ppm_header(width as nat, height as nat));
        assert(pixels@.subrange(0, 0) =~= Seq::<Pixel>::empty());
    }
    let mut i: usize = 0;
    while i < pixels.len()
        invariant
            i <= pixels.len(),
            out@ == ppm_header(width as nat, height as nat) + pixel_lines(
                pixels@.subrange(0, i as int),
            ),
        decreases pixels.len() - i,
    {
        proof {
            assert(pixels@.subrange(0, i + 1).drop_last() =~= pixels@.subrange(0, i as int));
        }
        push_pixel(&mut out, pixels[i]);
        i += 1;
        proof {
            assert(out@ =~= ppm_header(width as nat, height as nat) + pixel_lines(
                pixels@.subrange(0, i as int),
            ));
        }
    }
    proof {
        assert(pixels@.subrange(0, pixels.len() as int) =~= pixels@);
    }
    out
}

} // verus!
