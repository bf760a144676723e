//! Pixels as they are written out, and the text of the pixel stream.

use vstd::prelude::*;

verus! {

/// One pixel, each channel from 0 to 255.
#[derive(Clone, Copy, Debug, PartialEq, Eq, Structural)]
pub struct Rgb {
    pub r: u8,
    pub g: u8,
    pub b: u8,
}

/// The ASCII code of a space.
pub const SPACE: u8 = 32;

/// The ASCII code of a line feed.
pub const NEWLINE: u8 = 10;

/// The decimal digits of `n` in ASCII, without leading zeros.
pub open spec fn decimal(n: nat) -> Seq<u8>
    decreases n,
{
    if n < 10 {
        seq![(48 + n) as u8]
    } else {
        decimal(n / 10).push((48 + n % 10) as u8)
    }
}

/// The line of one pixel: its three channels in decimal, a space between
/// them and a line feed at the end.
pub open spec fn pixel_line(pixel: Rgb) -> Seq<u8> {
    decimal(pixel.r as nat).push(SPACE) + decimal(pixel.g as nat).push(SPACE) + decimal(
        pixel.b as nat,
    ).push(NEWLINE)
}

/// The two letters that name the format, a plain pixmap in ASCII.
pub open spec fn magic() -> Seq<u8> {
    seq![80u8, 51u8]
}

/// The head of the stream: the line that names the format; the line of
/// width and height; and the line of the greatest value of a channel, 255.
pub open spec fn header(width: u32, height: u32) -> Seq<u8> {
    magic().push(NEWLINE) + decimal(width as nat).push(SPACE) + decimal(height as nat).push(
        NEWLINE,
    ) + seq![50u8, 53u8, 53u8, NEWLINE]
}

/// The lines of the first `count` pixels of row `j`, from the left.
pub open spec fn row_lines(pixels: Seq<Rgb>, width: int, j: int, count: int) -> Seq<u8>
    decreases count,
{
    if count <= 0 {
        Seq::empty()
    } else {
        row_lines(pixels, width, j, count - 1) + pixel_line(pixels[j * width + count - 1])
    }
}

/// The lines of the `count` topmost rows, from the top. Rows are counted from
/// the bottom of the picture, so the topmost row is row `height - 1`.
pub open spec fn top_rows(pixels: Seq<Rgb>, width: int, height: int, count: int) -> Seq<u8>
    decreases count,
{
    if count <= 0 {
        Seq::empty()
    } else {
        top_rows(pixels, width, height, count - 1) + row_lines(
            pixels,
            width,
            height - count,
            width,
        )
    }
}

/// The whole stream of a picture: the head, then one line for each pixel,
/// rows from top to bottom and each row from left to right. `pixels` holds
/// the picture row by row from the bottom, so that the pixel in column `i` of
/// row `j` is at place `j * width + i`.
pub open spec fn stream(width: u32, height: u32, pixels: Seq<Rgb>) -> Seq<u8> {
    header(width, height) + top_rows(pixels, width as int, height as int, height as int)
}

/// Appends the decimal digits of `n` to `out`.
pub fn write_decimal(out: &mut Vec<u8>, n: u32)
    ensures
        final(out)@ == old(out)@ + decimal(n as nat),
    decreases n,
{
    if n < 10 {
        out.push(48 + n as u8);
        assert(out@ =~= old(out)@ + decimal(n as nat));
    } else {
        write_decimal(out, n / 10);
        out.push(48 + (n % 10) as u8);
        assert(out@ =~= old(out)@ + decimal(n as nat));
    }
}

/// Appends the line of one pixel to `out`.
pub fn write_color(out: &mut Vec<u8>, pixel_color: Rgb)
    ensures
        final(out)@ == old(out)@ + pixel_line(pixel_color),
{
    write_decimal(out, pixel_color.r as u32);
    out.push(SPACE);
    write_decimal(out, pixel_color.g as u32);
    out.push(SPACE);
    write_decimal(out, pixel_color.b as u32);
    out.push(NEWLINE);
    assert(out@ =~= old(out)@ + pixel_line(pixel_color));
}

/// Appends the head of the stream to `out`.
pub fn write_header(out: &mut Vec<u8>, width: u32, height: u32)
    ensures
        final(out)@ == old(out)@ + header(width, height),
{
    out.push(80);
    out.push(51);
    out.push(NEWLINE);
    write_decimal(out, width);
    out.push(SPACE);
    write_decimal(out, height);
    out.push(NEWLINE);
    out.push(50);
    out.push(53);
    out.push(53);
    out.push(NEWLINE);
    assert(out@ =~= old(out)@ + header(width, height));
}

/// The whole stream of a picture, provided `pixels` holds `width * height`
/// pixels.
pub fn write_image(width: u32, height: u32, pixels: &Vec<Rgb>) -> (out: Option<Vec<u8>>)
    ensures
        out is Some <==> pixels.len() == width * height,
        out matches Some(bytes) ==> bytes@ == stream(width, height, pixels@),
{
    assert(width * height <= 0xffff_ffff * 0xffff_ffff) by (nonlinear_arith)
        requires
            width <= 0xffff_ffff,
            height <= 0xffff_ffff,
    ;
    if pixels.len() as u128 != width as u128 * height as u128 {
        return None;
    }
    let mut out: Vec<u8> = Vec::new();
    write_header(&mut out, width, height);
    let mut done: u32 = 0;
    while done < height
        invariant
            done <= height,
            pixels.len() == width * height,
            out@ == header(width, height) + top_rows(
                pixels@,
                width as int,
                height as int,
                done as int,
            ),
        decreases height - done,
    {
        let j: u32 = height - 1 - done;
        let ghost before = out@;
        let mut i: u32 = 0;
        while i < width
            invariant
                i <= width,
                j < height,
                pixels.len() == width * height,
                out@ == before + row_lines(pixels@, width as int, j as int, i as int),
            decreases width - i,
        {
            assert(j * width + i < width * height) by (nonlinear_arith)
                requires
                    i < width,
                    j < height,
            ;
            let place: usize = j as usize * width as usize + i as usize;
            write_color(&mut out, pixels[place]);
            i += 1;
            assert(out@ =~= before + row_lines(pixels@, width as int, j as int, i as int));
        }
        done += 1;
        assert(out@ =~= header(width, height) + top_rows(
            pixels@,
            width as int,
            height as int,
            done as int,
        ));
    }
    Some(out)
}

} // verus!
