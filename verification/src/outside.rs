//! Calls into outside crates.
use vstd::prelude::*;

verus! {

/// A fresh random identifier from `uuid::Uuid::new_v4`. Nothing is claimed of
/// it: it depends on the random number generator.
#[verifier::external_body]
pub(crate) fn new_uuid() -> uuid::Uuid {
    uuid::Uuid::new_v4()
}


/// `String::push`: appends one character to the end of the string, as its
/// documentation says.
#[verifier::external_body]
pub(crate) fn push_char(s: &mut String, c: char)
    ensures
        final(s)@ == old(s)@.push(c),
{
    s.push(c)
}


/// Whether a character has the Unicode `White_Space` property: the tab, line feed, vertical
/// tab, form feed and carriage return, the space, next line, no-break space, Ogham space mark,
/// the spaces from en quad to hair space, the line and paragraph separators, the narrow
/// no-break space, the medium mathematical space and the ideographic space.
pub open spec fn white_space(c: char) -> bool {
    let u = c as u32;
    ||| 0x09 <= u <= 0x0D
    ||| u == 0x20
    ||| u == 0x85
    ||| u == 0xA0
    ||| u == 0x1680
    ||| 0x2000 <= u <= 0x200A
    ||| u == 0x2028
    ||| u == 0x2029
    ||| u == 0x202F
    ||| u == 0x205F
    ||| u == 0x3000
}

/// `char::is_whitespace`: whether the character has the Unicode `White_Space` property, as
/// listed in `white_space`.
#[verifier::external_body]
pub(crate) fn is_whitespace(c: char) -> (r: bool)
    ensures
        r == white_space(c),
{
    c.is_whitespace()
}

/// The text that `str::to_lowercase` makes of a string: its Unicode lowercase mapping, which
/// maps each character by itself except a capital sigma, whose form depends on whether it ends
/// a word. The mapping is only named here.
pub uninterp spec fn lowercase(s: Seq<char>) -> Seq<char>;

/// `str::to_lowercase`: the lowercase equivalent of a string.
#[verifier::external_body]
pub(crate) fn to_lowercase(s: &str) -> (r: String)
    ensures
        r@ == lowercase(s@),
{
    s.to_lowercase()
}

/// The column (or row) that position `x` stands for when a line of `len` pixels is continued
/// beyond its ends by repeating its first and last pixel.
pub open spec fn edge_clamped(x: int, len: int) -> int {
    if x < 0 {
        0
    } else if x >= len {
        len - 1
    } else {
        x
    }
}

/// Sum of the `count` pixels of row `y` from column `x0` on, in an image `width` pixels wide
/// (row by row), the row continued beyond its ends by its end pixels.
pub open spec fn padded_row_sum(width: int, pixels: Seq<u8>, y: int, x0: int, count: nat) -> int
    decreases count,
{
    if count == 0 {
        0
    } else {
        padded_row_sum(width, pixels, y, x0, (count - 1) as nat) + pixels[y * width + edge_clamped(
            x0 + count - 1,
            width,
        )]
    }
}

/// Sum of the `count` pixels of column `x` from row `y0` on, in an image of `width` x `height`
/// pixels (row by row), the column continued beyond its ends by its end pixels.
pub open spec fn padded_column_sum(width: int, height: int, pixels: Seq<u8>, x: int, y0: int, count: nat) -> int
    decreases count,
{
    if count == 0 {
        0
    } else {
        padded_column_sum(width, height, pixels, x, y0, (count - 1) as nat) + pixels[edge_clamped(
            y0 + count - 1,
            height,
        ) * width + x]
    }
}

/// The horizontal pass of the box filter: each pixel the mean, rounded down, of the
/// `2 * radius + 1` pixels of its row centred on it.
pub open spec fn row_means(width: u32, height: u32, pixels: Seq<u8>, radius: u32) -> Seq<u8> {
    Seq::new(
        (width * height) as nat,
        |i: int|
            (padded_row_sum(width as int, pixels, i / width as int, i % width as int - radius, (2 * radius + 1) as nat)
                / (2 * radius + 1)) as u8,
    )
}

/// What `imageproc::filter::box_filter` makes of a grayscale image of `width` x `height`
/// pixels (row by row) with the given radii: as its source computes it, every pixel becomes the
/// mean, rounded down, of the `2 * x_radius + 1` pixels of its row centred on it, and then the
/// mean, rounded down, of the `2 * y_radius + 1` pixels of its column centred on it in that
/// result; beyond the image's edges its border pixels are repeated.
pub open spec fn box_filtered(width: u32, height: u32, pixels: Seq<u8>, x_radius: u32, y_radius: u32) -> Seq<u8> {
    let rows = row_means(width, height, pixels, x_radius);
    Seq::new(
        (width * height) as nat,
        |i: int|
            (padded_column_sum(
                width as int,
                height as int,
                rows,
                i % width as int,
                i / width as int - y_radius,
                (2 * y_radius + 1) as nat,
            ) / (2 * y_radius + 1)) as u8,
    )
}

/// `imageproc::filter::box_filter`: the blurred image, of the same size as the input (the
/// source allocates the output with the input's dimensions). The running sums it keeps are
/// `u32`, hence the bound on the padded row and column lengths.
#[verifier::external_body]
pub(crate) fn box_filter(
    width: u32,
    height: u32,
    pixels: &Vec<u8>,
    x_radius: u32,
    y_radius: u32,
) -> (out: Vec<u8>)
    requires
        pixels.len() == width * height,
        width + 2 * x_radius < 0x100_0000,
        height + 2 * y_radius < 0x100_0000,
    ensures
        out@ == box_filtered(width, height, pixels@, x_radius, y_radius),
        out.len() == pixels.len(),
{
    let image = image::GrayImage::from_raw(width, height, pixels.clone()).unwrap();
    imageproc::filter::box_filter(&image, x_radius, y_radius).into_raw()
}

/// `imageproc::contrast::threshold_mut` with `ThresholdType::Binary`: as its source shows,
/// every pixel brighter than `level` becomes 255 and every other pixel 0.
#[verifier::external_body]
pub(crate) fn threshold(width: u32, height: u32, pixels: Vec<u8>, level: u8) -> (out: Vec<u8>)
    requires
        pixels.len() == width * height,
    ensures
        out.len() == pixels.len(),
        forall|i: int|
            0 <= i < out.len() ==> #[trigger] out@[i] == (if pixels@[i] > level {
                255u8
            } else {
                0u8
            }),
{
    let mut image = image::GrayImage::from_raw(width, height, pixels).unwrap();
    imageproc::contrast::threshold_mut(
        &mut image,
        level,
        imageproc::contrast::ThresholdType::Binary,
    );
    image.into_raw()
}

/// Which neighbours of a pixel count as connected to it.
pub enum Neighbours {
    /// The pixels above, below, left and right.
    Four,
    /// Those and the four diagonal ones.
    Eight,
}

/// The labelling that `imageproc::region_labelling::connected_components` gives a black and
/// white image of `width` x `height` pixels (row by row), with eight-way connectivity when
/// `diagonal` holds and four-way otherwise, and the given background value. Only named here.
pub uninterp spec fn component_labels(
    width: u32,
    height: u32,
    pixels: Seq<u8>,
    diagonal: bool,
    background: u8,
) -> Seq<u32>;

/// `imageproc::region_labelling::connected_components`: an image of the same size whose
/// pixels carry the label of the foreground component they belong to, 0 exactly for the
/// background pixels (its documentation). As the source shows, the labels count up from 1, at
/// most one per foreground pixel. The source panics from 2^32 pixels on, and when every pixel
/// starts a component of its own (its disjoint-set forest then lacks the last label), which on
/// a black and white image happens only for a single foreground pixel; which component gets
/// which label is left unsaid.
#[verifier::external_body]
pub(crate) fn connected_components(
    width: u32,
    height: u32,
    pixels: Vec<u8>,
    neighbours: Neighbours,
    background: u8,
) -> (labels: Vec<u32>)
    requires
        pixels.len() == width * height,
        width * height < 0x1_0000_0000,
        forall|i: int| 0 <= i < pixels.len() ==> #[trigger] pixels@[i] == 0 || pixels@[i] == 255,
        background == 0 || background == 255,
        width * height == 1 ==> pixels@[0] == background,
    ensures
        labels@ == component_labels(width, height, pixels@, neighbours is Eight, background),
        labels.len() == pixels.len(),
        forall|i: int|
            0 <= i < labels.len() ==> (#[trigger] labels@[i] == 0 <==> pixels@[i] == background),
        forall|i: int| 0 <= i < labels.len() ==> #[trigger] labels@[i] <= width * height,
{
    let image = image::GrayImage::from_raw(width, height, pixels).unwrap();
    let connectivity = match neighbours {
        Neighbours::Four => imageproc::region_labelling::Connectivity::Four,
        Neighbours::Eight => imageproc::region_labelling::Connectivity::Eight,
    };
    imageproc::region_labelling::connected_components(
        &image,
        connectivity,
        image::Luma([background]),
    ).into_raw()
}

} // verus!
