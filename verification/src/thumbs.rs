//! Thumbnails of images, and what a frame of a video becomes on its way to one.

use vstd::prelude::*;
use crate::text::{decimal, push_decimal};

verus! {

broadcast use vstd::string::group_string_axioms;

// ---------------------------------------------------------------------------
// What the `image` crate computes.

/// The picture that `image` decodes from bytes of the format of an extension,
/// scaled to fit a square: its width, its height and its pixels, three bytes each.
pub uninterp spec fn shrunk(bytes: Seq<u8>, ext: Seq<char>, max: u32) -> Option<(u32, u32, Seq<u8>)>;

/// The JPEG that `image` makes of a picture with three bytes to a pixel.
pub uninterp spec fn jpeg_of(width: u32, height: u32, rgb: Seq<u8>) -> Option<Seq<u8>>;

/// The JPEG that `image` makes of a picture that it decoded and scaled to fit a
/// square, in the colours that the picture has.
pub uninterp spec fn shrunk_jpeg(bytes: Seq<u8>, ext: Seq<char>, max: u32) -> Option<Seq<u8>>;

/// The width and the height that the header of an image gives to `image`.
pub uninterp spec fn header_dims(bytes: Seq<u8>, ext: Seq<char>) -> Option<(u32, u32)>;

/// How many bytes a pixel has, and how many channels, in the colours that `image`
/// decodes to.
pub uninterp spec fn header_colour(bytes: Seq<u8>, ext: Seq<char>) -> Option<(u8, u8)>;

/// Whether a square of a side can be filled with pixels of 16 bytes, which are the
/// largest that there are, in one piece of memory.
pub open spec fn side_ok(max: u32) -> bool {
    max * max * 16 <= isize::MAX
}

/// Whether a picture that fits a square of a side always fits into memory.
pub fn side_fits(max: u32) -> (r: bool)
    ensures
        r == side_ok(max),
{
    assert(max * max * 16 <= 0x1_0000_0000 * 0x1_0000_0000 * 16) by (nonlinear_arith)
        requires
            max <= 0xffff_ffff,
    ;
    assert(0 <= max * max) by (nonlinear_arith);
    max as u128 * max as u128 * 16 <= isize::MAX as u128
}

/// The longer of two sides.
pub open spec fn longer(width: u32, height: u32) -> int {
    if width < height {
        height as int
    } else {
        width as int
    }
}

/// The shorter of two sides.
pub open spec fn shorter(width: u32, height: u32) -> int {
    if width < height {
        width as int
    } else {
        height as int
    }
}

/// Whether one side of a picture is scaled as the other is, from `from` to `to`, up
/// to a pixel.
pub open spec fn in_proportion(from: u32, to: u32, side: u32, scaled: u32) -> bool {
    -from <= scaled * from - side * to <= from
}

/// Whether a picture fits a square, is as large as that allows, and has the
/// proportions that it had before it was scaled. Where there is nothing to scale,
/// or to scale to, nothing is asked.
pub open spec fn inscribed(dims: (u32, u32), max: u32, width: u32, height: u32) -> bool {
    dims.0 > 0 && dims.1 > 0 && max > 0 ==> {
        &&& 0 < width <= max
        &&& 0 < height <= max
        &&& if dims.1 <= dims.0 {
            width == max && in_proportion(dims.0, max, dims.1, height)
        } else {
            height == max && in_proportion(dims.1, max, dims.0, width)
        }
    }
}

/// The shorter side after scaling, where the longer one becomes `max`: to the nearest
/// pixel, and one at least. Midway between two pixels it is the smaller number, as
/// the sides are scaled in floating point, which may fall short of the middle.
pub open spec fn new_short(long: int, short: int, max: u32) -> int {
    let n = if long <= 0 {
        0
    } else {
        (2 * short * max + long - 1) / (2 * long)
    };
    if n < 1 {
        1
    } else {
        n
    }
}

/// How many pixels along a side become one pixel at most, where the side is scaled
/// to `n` pixels. What is added to the quotient is room for what is lost to rounding
/// in numbers with 24 binary digits.
pub open spec fn reach(side: int, n: int) -> int {
    let r = side / n + side / 0x40_0000 + 3;
    if r < side {
        r
    } else {
        side
    }
}

/// How many pixels become one pixel at most.
pub open spec fn block(width: u32, height: u32, max: u32) -> int {
    let long = longer(width, height);
    let short = shorter(width, height);
    reach(
        long,
        if max == 0 {
            1
        } else {
            max as int
        },
    ) * reach(short, new_short(long, short, max))
}

/// The largest value of a channel. What has more than a byte to a channel counts as
/// having two.
pub open spec fn channel_max(colour: Option<(u8, u8)>) -> int {
    match colour {
        Some(c) => if c.0 <= c.1 {
            0xff
        } else {
            0xffff
        },
        None => 0xffff,
    }
}

/// Whether the pixels that become one pixel can be added up in 32 bits, together with
/// the half of their number by which their mean is rounded.
pub open spec fn sums_ok(dims: Option<(u32, u32)>, colour: Option<(u8, u8)>, max: u32) -> bool {
    match dims {
        Some(d) => block(d.0, d.1, max) * channel_max(colour) + block(d.0, d.1, max) / 2 <= u32::MAX,
        None => true,
    }
}

/// Whether an image can be scaled to fit a square, whatever it shows.
pub open spec fn can_shrink(bytes: Seq<u8>, ext: Seq<char>, max: u32) -> bool {
    side_ok(max) && sums_ok(header_dims(bytes, ext), header_colour(bytes, ext), max)
}

fn reach_of(side: u32, n: u128) -> (r: u32)
    requires
        n >= 1,
    ensures
        r == reach(side as int, n as int),
        r <= side,
{
    assert(0 <= side as u128 / n <= side) by (nonlinear_arith)
        requires
            n >= 1,
    ;
    let r: u128 = side as u128 / n + side as u128 / 0x40_0000 + 3;
    if r < side as u128 {
        r as u32
    } else {
        side
    }
}

fn new_short_of(long: u32, short: u32, max: u32) -> (r: u128)
    ensures
        r == new_short(long as int, short as int, max),
        r >= 1,
{
    if long == 0 {
        return 1;
    }
    assert(0 <= short * max <= 0x1_0000_0000 * 0x1_0000_0000) by (nonlinear_arith)
        requires
            short <= 0x1_0000_0000,
            max <= 0x1_0000_0000,
    ;
    assert(2 * short * max == 2 * (short * max)) by (nonlinear_arith);
    let n: u128 = (2 * (short as u128 * max as u128) + long as u128 - 1) / (2 * long as u128);
    if n < 1 {
        1
    } else {
        n
    }
}

/// Whether the pixels that become one pixel can be added up in 32 bits.
pub fn sums_fit(dims: Option<(u32, u32)>, colour: Option<(u8, u8)>, max: u32) -> (r: bool)
    ensures
        r == sums_ok(dims, colour, max),
{
    match dims {
        None => true,
        Some(d) => {
            let long: u32 = if d.0 < d.1 {
                d.1
            } else {
                d.0
            };
            let short: u32 = if d.0 < d.1 {
                d.0
            } else {
                d.1
            };
            let side: u128 = if max == 0 {
                1
            } else {
                max as u128
            };
            let x: u32 = reach_of(long, side);
            let y: u32 = reach_of(short, new_short_of(long, short, max));
            let top: u128 = match colour {
                Some(c) => if c.0 <= c.1 {
                    0xff
                } else {
                    0xffff
                },
                None => 0xffff,
            };
            assert(0 <= x * y <= 0x1_0000_0000 * 0x1_0000_0000) by (nonlinear_arith)
                requires
                    x <= 0x1_0000_0000,
                    y <= 0x1_0000_0000,
            ;
            let pixels: u128 = x as u128 * y as u128;
            assert(0 <= pixels * top <= 0x1_0000_0000 * 0x1_0000_0000 * 0xffff) by (nonlinear_arith)
                requires
                    pixels <= 0x1_0000_0000 * 0x1_0000_0000,
                    top <= 0xffff,
            ;
            pixels * top + pixels / 2 <= u32::MAX as u128
        },
    }
}

/// `image::load_from_memory_with_format` with the format of
/// `ImageFormat::from_extension`, `DynamicImage::thumbnail` and
/// `DynamicImage::to_rgb8`: what comes of it is named; it has three bytes to a
/// pixel, and it is the image of the dimensions in the header, scaled to fit the
/// square with its proportions kept. A square that is too large for a vector makes `thumbnail` panic, and so
/// can pixels that do not add up in 32 bits.
#[verifier::external_body]
fn shrink(bytes: &Vec<u8>, ext: &str, max: u32) -> (r: Option<(u32, u32, Vec<u8>)>)
    requires
        can_shrink(bytes@, ext@, max),
    ensures
        match r {
            Some(t) => shrunk(bytes@, ext@, max) == Some((t.0, t.1, t.2@)) && t.2@.len() == t.0 * t.1 * 3
                && header_dims(bytes@, ext@) is Some && inscribed(header_dims(bytes@, ext@)->0, max, t.0, t.1),
            None => shrunk(bytes@, ext@, max) is None,
        },
{
    let format = image::ImageFormat::from_extension(ext)?;
    let img = image::load_from_memory_with_format(bytes, format).ok()?;
    let rgb = img.thumbnail(max, max).to_rgb8();
    Some((rgb.width(), rgb.height(), rgb.into_raw()))
}

/// `DynamicImage::write_to` with `ImageFormat::Jpeg`, on an `RgbImage` of the
/// pixels: what comes of it is named.
#[verifier::external_body]
fn encode_jpeg(width: u32, height: u32, rgb: Vec<u8>) -> (r: Option<Vec<u8>>)
    requires
        rgb@.len() == width * height * 3,
    ensures
        match r {
            Some(v) => jpeg_of(width, height, rgb@) == Some(v@),
            None => jpeg_of(width, height, rgb@) is None,
        },
{
    let img = image::RgbImage::from_raw(width, height, rgb)?;
    let mut out = std::io::Cursor::new(Vec::new());
    image::DynamicImage::ImageRgb8(img).write_to(&mut out, image::ImageFormat::Jpeg).ok()?;
    Some(out.into_inner())
}

/// `image::load_from_memory_with_format`, `DynamicImage::thumbnail` and
/// `DynamicImage::write_to` with `ImageFormat::Jpeg`: what comes of it is named. A
/// square that is too large for a vector makes `thumbnail` panic, and so can pixels
/// that do not add up in 32 bits.
#[verifier::external_body]
fn shrink_to_jpeg(bytes: &Vec<u8>, ext: &str, max: u32) -> (r: Option<Vec<u8>>)
    requires
        can_shrink(bytes@, ext@, max),
    ensures
        match r {
            Some(v) => shrunk_jpeg(bytes@, ext@, max) == Some(v@),
            None => shrunk_jpeg(bytes@, ext@, max) is None,
        },
{
    let format = image::ImageFormat::from_extension(ext)?;
    let img = image::load_from_memory_with_format(bytes, format).ok()?;
    let mut out = std::io::Cursor::new(Vec::new());
    img.thumbnail(max, max).write_to(&mut out, image::ImageFormat::Jpeg).ok()?;
    Some(out.into_inner())
}

/// `ImageReader::into_dimensions` with the format of `ImageFormat::from_extension`:
/// what comes of it is named.
#[verifier::external_body]
fn read_dims(bytes: &Vec<u8>, ext: &str) -> (r: Option<(u32, u32)>)
    ensures
        r == header_dims(bytes@, ext@),
{
    let format = image::ImageFormat::from_extension(ext)?;
    let reader = image::ImageReader::with_format(std::io::Cursor::new(bytes), format);
    reader.into_dimensions().ok()
}

/// `ImageDecoder::color_type` of the decoder of `ImageReader::into_decoder`, with
/// the format of `ImageFormat::from_extension`: what `ColorType::bytes_per_pixel`
/// and `ColorType::channel_count` say of it is named.
#[verifier::external_body]
fn read_colour(bytes: &Vec<u8>, ext: &str) -> (r: Option<(u8, u8)>)
    ensures
        r == header_colour(bytes@, ext@),
{
    let format = image::ImageFormat::from_extension(ext)?;
    let reader = image::ImageReader::with_format(std::io::Cursor::new(bytes), format);
    let colour = image::ImageDecoder::color_type(&reader.into_decoder().ok()?);
    Some((colour.bytes_per_pixel(), colour.channel_count()))
}

/// Whether an image can be scaled to fit a square, whatever it shows.
pub fn can_be_shrunk(bytes: &Vec<u8>, ext: &str, max: u32) -> (r: bool)
    ensures
        r == can_shrink(bytes@, ext@, max),
{
    side_fits(max) && sums_fit(read_dims(bytes, ext), read_colour(bytes, ext), max)
}

// ---------------------------------------------------------------------------
// Images.

/// Why there is no thumbnail.
#[derive(Debug, Clone, Copy, PartialEq, Eq, Structural)]
pub enum ThumbError {
    /// The image cannot be read.
    Unreadable,
    /// The thumbnail cannot be encoded.
    Unwritable,
    /// The image, or the thumbnail, is too large.
    TooLarge,
}

/// A picture with three bytes to a pixel, row by row.
pub struct Raster {
    width: u32,
    height: u32,
    rgb: Vec<u8>,
}

impl Raster {
    /// Whether there are as many bytes as pixels ask for.
    pub closed spec fn wf(&self) -> bool {
        self.rgb@.len() == self.width * self.height * 3
    }

    pub closed spec fn width_of(&self) -> u32 {
        self.width
    }

    pub closed spec fn height_of(&self) -> u32 {
        self.height
    }

    pub closed spec fn bytes(&self) -> Seq<u8> {
        self.rgb@
    }

    /// The picture as a JPEG.
    pub fn to_jpeg(self) -> (r: Result<Vec<u8>, ThumbError>)
        requires
            self.wf(),
        ensures
            match jpeg_of(self.width_of(), self.height_of(), self.bytes()) {
                Some(v) => r is Ok && r->Ok_0@ == v,
                None => r is Err && r->Err_0 == ThumbError::Unwritable,
            },
    {
        match encode_jpeg(self.width, self.height, self.rgb) {
            Some(v) => Ok(v),
            None => Err(ThumbError::Unwritable),
        }
    }
}

/// The thumbnail of a picture that was decoded and scaled.
pub open spec fn thumb_of(picture: Option<(u32, u32, Seq<u8>)>) -> Result<Seq<u8>, ThumbError> {
    match picture {
        None => Err(ThumbError::Unreadable),
        Some(p) => match jpeg_of(p.0, p.1, p.2) {
            Some(v) => Ok(v),
            None => Err(ThumbError::Unwritable),
        },
    }
}

/// The thumbnail of a picture that was decoded and scaled, as a JPEG.
pub fn encode_thumb(picture: Option<(u32, u32, Vec<u8>)>) -> (r: Result<Vec<u8>, ThumbError>)
    requires
        picture matches Some(p) ==> p.2@.len() == p.0 * p.1 * 3,
    ensures
        match thumb_of(
            match picture {
                Some(p) => Some((p.0, p.1, p.2@)),
                None => None,
            },
        ) {
            Ok(v) => r is Ok && r->Ok_0@ == v,
            Err(e) => r is Err && r->Err_0 == e,
        },
{
    match picture {
        None => Err(ThumbError::Unreadable),
        Some(p) => {
            let raster = Raster { width: p.0, height: p.1, rgb: p.2 };
            raster.to_jpeg()
        },
    }
}

/// Whether the picture that an image file is scaled to fits the square, with the
/// proportions of the image.
pub open spec fn scaled_to_fit(bytes: Seq<u8>, ext: Seq<char>, max: u32) -> bool {
    match (header_dims(bytes, ext), shrunk(bytes, ext, max)) {
        (Some(d), Some(p)) => inscribed(d, max, p.0, p.1),
        _ => false,
    }
}

/// The thumbnail of an image file as a JPEG: the image scaled to fit a square of
/// side `max`, with its proportions kept. The extension of the file says what
/// format its bytes have.
pub fn make_image_thumb(bytes: &Vec<u8>, ext: &str, max: u32) -> (r: Result<Vec<u8>, ThumbError>)
    requires
        can_shrink(bytes@, ext@, max),
    ensures
        match thumb_of(shrunk(bytes@, ext@, max)) {
            Ok(v) => r is Ok && r->Ok_0@ == v,
            Err(e) => r is Err && r->Err_0 == e,
        },
        r is Ok ==> scaled_to_fit(bytes@, ext@, max),
{
    encode_thumb(shrink(bytes, ext, max))
}

/// The thumbnail of an image file as a JPEG, where the image can be scaled.
pub fn make_image_thumb_if_fits(bytes: &Vec<u8>, ext: &str, max: u32) -> (r: Result<Vec<u8>, ThumbError>)
    ensures
        match (if can_shrink(bytes@, ext@, max) {
            thumb_of(shrunk(bytes@, ext@, max))
        } else {
            Err(ThumbError::TooLarge)
        }) {
            Ok(v) => r is Ok && r->Ok_0@ == v,
            Err(e) => r is Err && r->Err_0 == e,
        },
        r is Ok ==> scaled_to_fit(bytes@, ext@, max),
{
    if can_be_shrunk(bytes, ext, max) {
        make_image_thumb(bytes, ext, max)
    } else {
        Err(ThumbError::TooLarge)
    }
}

/// The width and the height of an image file.
pub fn image_dims(bytes: &Vec<u8>, ext: &str) -> (r: Option<(i64, i64)>)
    ensures
        r == match header_dims(bytes@, ext@) {
            Some(d) => Some((d.0 as i64, d.1 as i64)),
            None => None,
        },
{
    match read_dims(bytes, ext) {
        Some(d) => Some((d.0 as i64, d.1 as i64)),
        None => None,
    }
}

/// The name of the file with the thumbnail of a row.
pub open spec fn thumb_name(id: i64) -> Seq<char> {
    decimal(id as int) + ".jpg"@
}

/// The name of the file with the thumbnail of a row.
pub fn thumb_filename(id: i64) -> (r: String)
    ensures
        r@ == thumb_name(id),
{
    let mut s = String::new();
    push_decimal(&mut s, id);
    s.append(".jpg");
    assert(s@ =~= thumb_name(id));
    s
}

/// The thumbnail of an image file in the colours that it has: the name of its
/// file, and what it holds. There is none where the image cannot be read or the
/// thumbnail not be encoded.
pub fn generate_image_thumbnail(bytes: &Vec<u8>, ext: &str, media_id: i64, thumbnail_width: u32) -> (r: Option<
    (String, Vec<u8>),
>)
    requires
        can_shrink(bytes@, ext@, thumbnail_width),
    ensures
        match shrunk_jpeg(bytes@, ext@, thumbnail_width) {
            Some(v) => r matches Some(t) && t.0@ == thumb_name(media_id) && t.1@ == v,
            None => r is None,
        },
{
    match shrink_to_jpeg(bytes, ext, thumbnail_width) {
        Some(v) => Some((thumb_filename(media_id), v)),
        None => None,
    }
}

/// The thumbnail of an image file in the colours that it has, where the image can
/// be scaled.
pub fn generate_image_thumbnail_if_fits(bytes: &Vec<u8>, ext: &str, media_id: i64, thumbnail_width: u32) -> (r: Result<
    Option<(String, Vec<u8>)>,
    ThumbError,
>)
    ensures
        r is Ok <==> can_shrink(bytes@, ext@, thumbnail_width),
        match r {
            Ok(made) => match shrunk_jpeg(bytes@, ext@, thumbnail_width) {
                Some(v) => made matches Some(t) && t.0@ == thumb_name(media_id) && t.1@ == v,
                None => made is None,
            },
            Err(e) => e == ThumbError::TooLarge,
        },
{
    if can_be_shrunk(bytes, ext, thumbnail_width) {
        Ok(generate_image_thumbnail(bytes, ext, media_id, thumbnail_width))
    } else {
        Err(ThumbError::TooLarge)
    }
}

// ---------------------------------------------------------------------------
// Frames of videos.

/// The next multiple of 64.
pub open spec fn aligned(n: int) -> int {
    (n + 63) / 64 * 64
}

/// Rounds up to a multiple of 64.
pub fn align64(n: usize) -> (r: usize)
    requires
        n + 63 <= usize::MAX,
    ensures
        r == aligned(n as int),
        r % 64 == 0,
        n <= r < n + 64,
{
    (n + 63) / 64 * 64
}

/// A buffer that a frame is drawn into, with four bytes to a pixel.
#[derive(Debug, Clone, Copy, PartialEq, Eq, Structural)]
pub struct FramePlan {
    pub width: u32,
    pub height: u32,
    /// How many bytes there are from one row to the next.
    pub stride: usize,
    /// How many bytes the buffer has.
    pub len: usize,
}

impl FramePlan {
    /// Whether the rows fit the stride, and the buffer the rows.
    pub open spec fn wf(self) -> bool {
        self.width * 4 <= self.stride && self.len == self.stride * self.height
    }
}

/// The buffer for a frame of a size; `None` where it would be too large for the
/// machine.
pub fn frame_plan(width: u32, height: u32) -> (r: Option<FramePlan>)
    ensures
        match r {
            Some(p) => p.wf() && p.width == width && p.height == height && p.stride == aligned(width * 4),
            None => aligned(width * 4) > usize::MAX || aligned(width * 4) * height > usize::MAX,
        },
{
    let row: u64 = (width as u64 * 4 + 63) / 64 * 64;
    assert(row * height <= 0x1_0000_0000_00 * 0x1_0000_0000) by (nonlinear_arith)
        requires
            row <= 0x1_0000_0000_00,
            height <= 0xffff_ffff,
    ;
    let total: u128 = row as u128 * height as u128;
    if row > usize::MAX as u64 || total > usize::MAX as u128 {
        return None;
    }
    Some(FramePlan { width, height, stride: row as usize, len: total as usize })
}

/// Whether a picture shows a frame: it has three bytes to a pixel, and the fourth
/// byte of each pixel of the frame is left out.
pub open spec fn shows_frame(rgb: Seq<u8>, frame: Seq<u8>, plan: FramePlan) -> bool {
    &&& rgb.len() == plan.width * plan.height * 3
    &&& forall|y: int, x: int, c: int|
        0 <= y < plan.height && 0 <= x < plan.width && 0 <= c < 3 ==> rgb[(y * plan.width + x) * 3 + c]
            == #[trigger] frame[y * plan.stride + x * 4 + c]
}

proof fn lemma_before(y: int, x: int, w: int, a: int, b: int)
    by (nonlinear_arith)
    requires
        0 <= b < w,
        0 <= x,
        0 <= a,
        a < y || (a == y && b < x),
    ensures
        a * w + b < y * w + x,
{
}

proof fn lemma_in_frame(y: int, x: int, plan: FramePlan)
    by (nonlinear_arith)
    requires
        plan.width * 4 <= plan.stride,
        plan.len == plan.stride * plan.height,
        0 <= y < plan.height,
        0 <= x < plan.width,
    ensures
        y * plan.stride + x * 4 + 3 < plan.len,
        0 <= y * plan.stride,
{
}

/// The picture of a frame.
pub fn frame_picture(frame: &Vec<u8>, plan: FramePlan) -> (r: Raster)
    requires
        plan.wf(),
        frame@.len() == plan.len,
    ensures
        r.wf(),
        r.width_of() == plan.width,
        r.height_of() == plan.height,
        shows_frame(r.bytes(), frame@, plan),
{
    let mut rgb: Vec<u8> = Vec::new();
    let mut row: usize = 0;
    let mut y: u32 = 0;
    assert(0 * plan.width == 0 && 0 * plan.stride == 0) by (nonlinear_arith);
    while y < plan.height
        invariant
            plan.wf(),
            frame@.len() == plan.len,
            y <= plan.height,
            row == y * plan.stride,
            rgb@.len() == y * plan.width * 3,
            forall|a: int, b: int, c: int|
                0 <= a < y && 0 <= b < plan.width && 0 <= c < 3 ==> rgb@[(a * plan.width + b) * 3 + c]
                    == #[trigger] frame@[a * plan.stride + b * 4 + c],
        decreases plan.height - y,
    {
        let mut x: u32 = 0;
        while x < plan.width
            invariant
                plan.wf(),
                frame@.len() == plan.len,
                y < plan.height,
                x <= plan.width,
                row == y * plan.stride,
                rgb@.len() == (y * plan.width + x) * 3,
                forall|a: int, b: int, c: int|
                    0 <= a <= y && 0 <= b < plan.width && (a < y || b < x) && 0 <= c < 3 ==> rgb@[(a * plan.width + b)
                        * 3 + c] == #[trigger] frame@[a * plan.stride + b * 4 + c],
            decreases plan.width - x,
        {
            proof {
                lemma_in_frame(y as int, x as int, plan);
            }
            let at: usize = row + x as usize * 4;
            let ghost before = rgb@;
            rgb.push(frame[at]);
            rgb.push(frame[at + 1]);
            rgb.push(frame[at + 2]);
            proof {
                let w = plan.width as int;
                assert forall|a: int, b: int, c: int|
                    0 <= a <= y && 0 <= b < plan.width && (a < y || b < x + 1) && 0 <= c < 3 implies rgb@[(a
                    * plan.width + b) * 3 + c] == #[trigger] frame@[a * plan.stride + b * 4 + c] by {
                    if a < y || b < x {
                        lemma_before(y as int, x as int, w, a, b);
                        assert(0 <= a * w) by (nonlinear_arith)
                            requires
                                0 <= a,
                                0 <= w,
                        ;
                        assert(rgb@[(a * w + b) * 3 + c] == before[(a * w + b) * 3 + c]);
                    }
                }
            }
            x += 1;
        }
        proof {
            assert((y + 1) * plan.width == y * plan.width + plan.width) by (nonlinear_arith);
            assert((y + 1) * plan.stride == y * plan.stride + plan.stride) by (nonlinear_arith);
            assert((y + 1) * plan.stride <= plan.height * plan.stride) by (nonlinear_arith)
                requires
                    y < plan.height,
            ;
            assert(plan.height * plan.stride == plan.stride * plan.height) by (nonlinear_arith);
        }
        row = row + plan.stride;
        y += 1;
    }
    assert(plan.width * plan.height * 3 == plan.height * plan.width * 3) by (nonlinear_arith);
    Raster { width: plan.width, height: plan.height, rgb }
}

// ---------------------------------------------------------------------------
// Waiting for a frame.

/// The player is told to stop.
pub const EV_SHUTDOWN: i32 = 1;

/// The file is over.
pub const EV_END_FILE: i32 = 7;

/// The file was opened.
pub const EV_FILE_LOADED: i32 = 8;

/// Playback begins anew after a jump: the frame is there.
pub const EV_PLAYBACK_RESTART: i32 = 21;

/// How the player is waited for.
#[derive(Debug, Clone, Copy, PartialEq, Eq, Structural)]
pub enum Wait {
    /// What was waited for is there.
    Ready,
    /// It will not come.
    Over,
    /// It may still come.
    Again,
}

/// What an event means for one that waits for `wanted`.
pub open spec fn wait_after(event: i32, wanted: i32) -> Wait {
    if event == wanted {
        Wait::Ready
    } else if event == EV_END_FILE || event == EV_SHUTDOWN {
        Wait::Over
    } else {
        Wait::Again
    }
}

/// How long the frame of a thumbnail is waited for, in seconds.
pub const FRAME_WAIT_SECS: u64 = 15;

/// How long the opening of a file is waited for, in seconds.
pub const FILE_WAIT_SECS: u64 = 10;

/// What an event means for one that waits for the frame of a thumbnail.
pub fn wait_for_frame(event: i32) -> (r: Wait)
    ensures
        r == wait_after(event, EV_PLAYBACK_RESTART),
{
    if event == EV_PLAYBACK_RESTART {
        Wait::Ready
    } else if event == EV_END_FILE || event == EV_SHUTDOWN {
        Wait::Over
    } else {
        Wait::Again
    }
}

/// What an event means for one that waits for a file to be opened.
pub fn wait_for_file(event: i32) -> (r: Wait)
    ensures
        r == wait_after(event, EV_FILE_LOADED),
{
    if event == EV_FILE_LOADED {
        Wait::Ready
    } else if event == EV_END_FILE || event == EV_SHUTDOWN {
        Wait::Over
    } else {
        Wait::Again
    }
}

/// A side of a video as the player gives it: `max` where it gives none, and at
/// least 1.
pub fn video_side(given: Option<i64>, max: u32) -> (r: u32)
    ensures
        r == (match given {
            Some(v) => if v < 1 {
                1i64
            } else {
                v
            },
            None => if max < 1 {
                1i64
            } else {
                max as i64
            },
        }) as u32,
{
    let v: i64 = match given {
        Some(v) => v,
        None => max as i64,
    };
    let v: i64 = if v < 1 {
        1
    } else {
        v
    };
    v as u32
}

/// The options of the player that makes a thumbnail, by name, in the order in which
/// they are set.
pub fn thumb_options(seek_percent: u32) -> (r: Vec<(String, String)>)
    ensures
        option_texts(r@) == thumb_option_texts(seek_percent),
{
    let mut start = String::new();
    push_decimal(&mut start, seek_percent as i64);
    start.push('%');
    let mut out: Vec<(String, String)> = Vec::new();
    out.push(("vo".to_string(), "libmpv".to_string()));
    out.push(("hwdec".to_string(), "no".to_string()));
    out.push(("audio".to_string(), "no".to_string()));
    out.push(("terminal".to_string(), "no".to_string()));
    out.push(("msg-level".to_string(), "all=no".to_string()));
    out.push(("pause".to_string(), "yes".to_string()));
    out.push(("hr-seek".to_string(), "yes".to_string()));
    assert(start@ =~= decimal(seek_percent as int) + seq!['%']);
    out.push(("start".to_string(), start));
    assert(option_texts(out@) =~= thumb_option_texts(seek_percent));
    out
}

/// Options as pairs of texts.
pub open spec fn option_texts(v: Seq<(String, String)>) -> Seq<(Seq<char>, Seq<char>)> {
    v.map_values(|p: (String, String)| (p.0@, p.1@))
}

/// The options of the player that makes a thumbnail: it draws into memory, decodes
/// without the graphics card, is silent, and stands at a percentage of the video.
pub open spec fn thumb_option_texts(seek_percent: u32) -> Seq<(Seq<char>, Seq<char>)> {
    seq![
        ("vo"@, "libmpv"@),
        ("hwdec"@, "no"@),
        ("audio"@, "no"@),
        ("terminal"@, "no"@),
        ("msg-level"@, "all=no"@),
        ("pause"@, "yes"@),
        ("hr-seek"@, "yes"@),
        ("start"@, decimal(seek_percent as int) + seq!['%']),
    ]
}

/// The options of the player that only looks at a video.
pub open spec fn probe_option_texts() -> Seq<(Seq<char>, Seq<char>)> {
    seq![("vo"@, "null"@), ("audio"@, "no"@), ("terminal"@, "no"@), ("msg-level"@, "all=no"@), ("pause"@, "yes"@)]
}

/// The options of the player that only looks at a video, in the order in which they
/// are set.
pub fn probe_options() -> (r: Vec<(String, String)>)
    ensures
        option_texts(r@) == probe_option_texts(),
{
    let mut out: Vec<(String, String)> = Vec::new();
    out.push(("vo".to_string(), "null".to_string()));
    out.push(("audio".to_string(), "no".to_string()));
    out.push(("terminal".to_string(), "no".to_string()));
    out.push(("msg-level".to_string(), "all=no".to_string()));
    out.push(("pause".to_string(), "yes".to_string()));
    assert(option_texts(out@) =~= probe_option_texts());
    out
}

} // verus!
