//! Decoded images and their bands: from the bytes of an image file to the
//! PNG files that are handed to the line detector.
//!
//! A decoded image is held as rows of pixels with four bytes each: red,
//! green, blue and alpha.

use vstd::prelude::*;
use vstd::slice::{slice_subrange, slice_to_vec};
use vstd::string::*;
use crate::logic::{band_at, band_count, downsample_high_byte, plan_bands, Band, PipelineError};

verus! {

/// A decoded image.
#[derive(Debug, PartialEq, Eq)]
pub struct Picture {
    pub width: u32,
    pub height: u32,
    /// The rows from the top, each from the left, four bytes a pixel.
    pub pixels: Vec<u8>,
}

/// A band of an image, encoded as a PNG file.
#[derive(Debug, PartialEq, Eq)]
pub struct BandImage {
    pub band: Band,
    pub png: Vec<u8>,
}

/// The samples of a decoded AVIF image, pixel by pixel: three or four
/// channels of eight or sixteen bits.
#[derive(Debug, PartialEq, Eq)]
pub enum AvifSamples {
    Rgb8(Vec<u8>),
    Rgba8(Vec<u8>),
    Rgb16(Vec<u16>),
    Rgba16(Vec<u16>),
}

/// Whether the bytes of an image file begin like an AVIF file: there are at
/// least twelve, the first two are zero, the fifth to the twelfth spell
/// `ftypavif`, and the third and fourth are not 1 and 0, which with two
/// zeros before them begin an icon file.
pub open spec fn sniffed_avif(bytes: Seq<u8>) -> bool {
    &&& bytes.len() >= 12
    &&& bytes[0] == 0
    &&& bytes[1] == 0
    &&& !(bytes[2] == 1 && bytes[3] == 0)
    &&& bytes[4] == 0x66
    &&& bytes[5] == 0x74
    &&& bytes[6] == 0x79
    &&& bytes[7] == 0x70
    &&& bytes[8] == 0x61
    &&& bytes[9] == 0x76
    &&& bytes[10] == 0x69
    &&& bytes[11] == 0x66
}

/// Decodes an image file with `image::load_from_memory`, which guesses the
/// format from the content, and takes the image as eight-bit RGBA with
/// `DynamicImage::into_rgba8`: width, height and pixels, or the decoder's
/// message. Nothing is claimed of the outcome: a decoder may take paths of
/// its own on each machine.
#[verifier::external_body]
fn decode_rgba(bytes: &[u8]) -> (decoded: Result<(u32, u32, Vec<u8>), String>) {
    match image::load_from_memory(bytes) {
        Ok(image) => {
            let rgba = image.into_rgba8();
            Ok((rgba.width(), rgba.height(), rgba.into_raw()))
        },
        Err(err) => Err(format!("Failed decode: {err:?}")),
    }
}

/// Asks `image::guess_format` whether it takes the bytes for AVIF. The
/// contract states the answer as the table of that function gives it: the
/// entry for AVIF is the only one that bytes with two leading zeros can
/// meet, but for the entry for icon files, which stands before it.
#[verifier::external_body]
fn sniff_avif(bytes: &[u8]) -> (avif: bool)
    ensures
        avif == sniffed_avif(bytes@),
{
    match image::guess_format(bytes) {
        Ok(image::ImageFormat::Avif) => true,
        _ => false,
    }
}

/// What the PNG encoder makes of an image of the given width, height and
/// pixels: the bytes of the file, or the message of its failure.
pub uninterp spec fn png_file(width: u32, height: u32, pixels: Seq<u8>) -> Result<
    Seq<u8>,
    Seq<char>,
>;

/// Encodes eight-bit RGBA pixels as PNG with `ImageBuffer::from_raw` and
/// `ImageBuffer::write_to`: the file, or the encoder's message. Nothing is
/// proved of the encoder: the contract names its answer, which depends on
/// width, height and pixels alone.
#[verifier::external_body]
fn encode_png(width: u32, height: u32, pixels: &[u8]) -> (png: Result<Vec<u8>, String>)
    ensures
        match png {
            Ok(file) => png_file(width, height, pixels@) == Ok::<Seq<u8>, Seq<char>>(file@),
            Err(message) => png_file(width, height, pixels@) == Err::<Seq<u8>, Seq<char>>(
                message@,
            ),
        },
{
    let mut file = std::io::Cursor::new(Vec::new());
    match image::ImageBuffer::<image::Rgba<u8>, &[u8]>::from_raw(width, height, pixels) {
        Some(buffer) => match buffer.write_to(&mut file, image::ImageFormat::Png) {
            Ok(()) => Ok(file.into_inner()),
            Err(err) => Err(format!("Failed write_to: {err:?}")),
        },
        None => Err("Failed write_to: too few pixels".to_string()),
    }
}

/// Number of bytes that hold an image of `width` by `height` pixels.
pub open spec fn byte_count(width: u32, height: u32) -> int {
    width * height * 4
}

/// The bytes of `count` rows from row `from` on, in an image `width`
/// pixels wide.
pub open spec fn rows_of(pixels: Seq<u8>, width: u32, from: int, count: int) -> Seq<u8> {
    pixels.subrange(from * width * 4, (from + count) * width * 4)
}

/// The pixels of an AVIF image as eight-bit RGBA: the high byte of a
/// sample of sixteen bits, and full opacity where there is no alpha.
pub open spec fn rgba_byte(samples: AvifSamples, at: int) -> u8 {
    let pixel = at / 4;
    let channel = at % 4;
    match samples {
        AvifSamples::Rgb8(s) => if channel == 3 {
            255u8
        } else {
            s@[3 * pixel + channel]
        },
        AvifSamples::Rgba8(s) => s@[at],
        AvifSamples::Rgb16(s) => if channel == 3 {
            255u8
        } else {
            (s@[3 * pixel + channel] / 256) as u8
        },
        AvifSamples::Rgba16(s) => (s@[at] / 256) as u8,
    }
}

/// Number of samples that an image of `width` by `height` pixels has.
pub open spec fn sample_count(samples: AvifSamples, width: u32, height: u32) -> bool {
    match samples {
        AvifSamples::Rgb8(s) => s@.len() == width * height * 3,
        AvifSamples::Rgba8(s) => s@.len() == width * height * 4,
        AvifSamples::Rgb16(s) => s@.len() == width * height * 3,
        AvifSamples::Rgba16(s) => s@.len() == width * height * 4,
    }
}

/// The area of an image in pixels.
fn area(width: u32, height: u32) -> (pixels: u128)
    ensures
        pixels == width * height,
        pixels <= 0xFFFF_FFFE_0000_0001,
{
    assert(width * height <= 0xFFFF_FFFF * 0xFFFF_FFFF) by (nonlinear_arith)
        requires
            0 <= width <= 0xFFFF_FFFF,
            0 <= height <= 0xFFFF_FFFF,
    ;
    (width as u128) * (height as u128)
}

/// Puts a fourth byte, full opacity, behind every three.
fn with_alpha(rgb: &Vec<u8>) -> (rgba: Vec<u8>)
    requires
        rgb@.len() % 3 == 0,
        rgb@.len() / 3 * 4 <= usize::MAX,
    ensures
        rgba@.len() == rgb@.len() / 3 * 4,
        forall|at: int|
            0 <= at < rgba@.len() ==> #[trigger] rgba@[at] == if at % 4 == 3 {
                255u8
            } else {
                rgb@[3 * (at / 4) + at % 4]
            },
{
    let count: usize = rgb.len() / 3;
    let mut rgba: Vec<u8> = Vec::new();
    let mut pixel: usize = 0;
    while pixel < count
        invariant
            count == rgb@.len() / 3,
            rgb@.len() % 3 == 0,
            3 * count == rgb@.len(),
            rgb@.len() <= usize::MAX,
            pixel <= count,
            rgba@.len() == pixel * 4,
            forall|at: int|
                0 <= at < rgba@.len() ==> #[trigger] rgba@[at] == if at % 4 == 3 {
                    255u8
                } else {
                    rgb@[3 * (at / 4) + at % 4]
                },
        decreases count - pixel,
    {
        rgba.push(rgb[3 * pixel]);
        rgba.push(rgb[3 * pixel + 1]);
        rgba.push(rgb[3 * pixel + 2]);
        rgba.push(255);
        pixel = pixel + 1;
    }
    rgba
}

impl Picture {
    /// There are four bytes for each pixel.
    pub open spec fn is_valid(&self) -> bool {
        self.pixels@.len() == byte_count(self.width, self.height)
    }

    /// Tests `is_valid`.
    pub fn check_valid(&self) -> (ok: bool)
        ensures
            ok == self.is_valid(),
    {
        (self.pixels.len() as u128) == area(self.width, self.height) * 4
    }

    /// The rows of a band as an image of their own.
    pub fn crop(&self, band: Band) -> (part: Picture)
        requires
            self.is_valid(),
            band.y + band.height <= self.height,
        ensures
            part.is_valid(),
            part.width == self.width,
            part.height == band.height,
            part.pixels@ == rows_of(self.pixels@, self.width, band.y as int, band.height as int),
    {
        let total: usize = self.pixels.len();
        let from: u128 = area(self.width, band.y) * 4;
        let to: u128 = area(self.width, band.y + band.height) * 4;
        proof {
            let w = self.width as int;
            assert(w * band.y <= w * (band.y + band.height) <= w * self.height) by (nonlinear_arith)
                requires
                    0 <= w,
                    0 <= band.y,
                    0 <= band.height,
                    band.y + band.height <= self.height,
            ;
            assert(w * band.y == band.y * w && w * (band.y + band.height) == (band.y + band.height)
                * w && w * (band.y + band.height) - w * band.y == w * band.height)
                by (nonlinear_arith);
        }
        let pixels: Vec<u8> = slice_to_vec(
            slice_subrange(self.pixels.as_slice(), from as usize, to as usize),
        );
        Picture { width: self.width, height: band.height, pixels }
    }
}

/// Whether the bytes of an image file are to be decoded as AVIF, by the
/// decoder for that format, and not by `load_picture`.
pub fn is_avif(bytes: &[u8]) -> (avif: bool)
    ensures
        avif == sniffed_avif(bytes@),
{
    sniff_avif(bytes)
}

/// Makes a picture of what the decoder has read, if it has read an image
/// and the image has four bytes for each pixel.
pub fn picture_from(decoded: Result<(u32, u32, Vec<u8>), String>) -> (picture: Result<
    Picture,
    PipelineError,
>)
    ensures
        match picture {
            Ok(p) => decoded == Ok::<(u32, u32, Vec<u8>), String>((p.width, p.height, p.pixels))
                && p.is_valid(),
            Err(e) => e is Decode && match decoded {
                Ok(image) => image.2@.len() != byte_count(image.0, image.1),
                Err(message) => e == PipelineError::Decode(message),
            },
        },
{
    match decoded {
        Ok(image) => {
            let picture = Picture { width: image.0, height: image.1, pixels: image.2 };
            if picture.check_valid() {
                Ok(picture)
            } else {
                Err(PipelineError::Decode(String::from_str("Decoded image has the wrong size")))
            }
        },
        Err(message) => Err(PipelineError::Decode(message)),
    }
}

/// Decodes an image file of any format that the decoder knows. What the
/// decoder hands back becomes a picture exactly as `picture_from` says.
pub fn load_picture(bytes: &[u8]) -> (picture: Result<Picture, PipelineError>)
    ensures
        match picture {
            Ok(p) => p.is_valid(),
            Err(e) => e is Decode,
        },
{
    picture_from(decode_rgba(bytes))
}

/// Makes a picture of the samples of a decoded AVIF image. Samples of
/// sixteen bits are reduced to their high byte, and an image without alpha
/// is opaque. There is no picture where the number of samples does not fit
/// the size.
pub fn picture_from_avif(width: u32, height: u32, samples: AvifSamples) -> (picture: Option<Picture>)
    ensures
        match picture {
            Some(p) => {
                &&& sample_count(samples, width, height)
                &&& p.is_valid()
                &&& p.width == width
                &&& p.height == height
                &&& forall|at: int|
                    0 <= at < p.pixels@.len() ==> #[trigger] p.pixels@[at] == rgba_byte(samples, at)
            },
            None => !sample_count(samples, width, height) || byte_count(width, height) > usize::MAX,
        },
{
    let pixels: u128 = area(width, height);
    if pixels * 4 > usize::MAX as u128 {
        return None;
    }
    match samples {
        AvifSamples::Rgb8(s) => {
            if (s.len() as u128) != pixels * 3 {
                return None;
            }
            Some(Picture { width, height, pixels: with_alpha(&s) })
        },
        AvifSamples::Rgba8(s) => {
            if (s.len() as u128) != pixels * 4 {
                return None;
            }
            Some(Picture { width, height, pixels: s })
        },
        AvifSamples::Rgb16(s) => {
            if (s.len() as u128) != pixels * 3 {
                return None;
            }
            let bytes: Vec<u8> = downsample_high_byte(&s);
            Some(Picture { width, height, pixels: with_alpha(&bytes) })
        },
        AvifSamples::Rgba16(s) => {
            if (s.len() as u128) != pixels * 4 {
                return None;
            }
            Some(Picture { width, height, pixels: downsample_high_byte(&s) })
        },
    }
}

/// Band `i` of a picture as a picture of its own.
pub open spec fn band_picture(picture: Picture, i: int) -> (Band, u32, Seq<u8>) {
    let band = band_at(picture.height, i);
    (band, picture.width, rows_of(picture.pixels@, picture.width, band.y as int, band.height as int))
}

/// Cuts a picture into its bands, from the top.
pub fn band_pictures(picture: &Picture) -> (parts: Vec<(Band, Picture)>)
    requires
        picture.is_valid(),
    ensures
        parts@.len() == band_count(picture.height),
        forall|i: int|
            0 <= i < parts@.len() ==> (#[trigger] parts@[i]).1.is_valid() && band_picture(
                *picture,
                i,
            ) == (parts@[i].0, parts@[i].1.width, parts@[i].1.pixels@) && parts@[i].1.height
                == parts@[i].0.height,
{
    let bands: Vec<Band> = plan_bands(picture.height);
    let mut parts: Vec<(Band, Picture)> = Vec::new();
    let mut i: usize = 0;
    while i < bands.len()
        invariant
            picture.is_valid(),
            bands@.len() == band_count(picture.height),
            forall|k: int| 0 <= k < bands@.len() ==> #[trigger] bands@[k] == band_at(picture.height, k),
            i <= bands@.len(),
            parts@.len() == i,
            forall|k: int|
                0 <= k < i ==> (#[trigger] parts@[k]).1.is_valid() && band_picture(*picture, k) == (
                    parts@[k].0,
                    parts@[k].1.width,
                    parts@[k].1.pixels@,
                ) && parts@[k].1.height == parts@[k].0.height,
        decreases bands@.len() - i,
    {
        let band: Band = bands[i];
        assert(band == band_at(picture.height, i as int));
        proof {
            crate::logic::lemma_band_within(picture.height, i as int);
        }
        let part: Picture = picture.crop(band);
        parts.push((band, part));
        i = i + 1;
    }
    parts
}

/// What the encoder makes of band `i` of a picture.
pub open spec fn band_file(picture: Picture, i: int) -> Result<Seq<u8>, Seq<char>> {
    let part = band_picture(picture, i);
    png_file(part.1, part.0.height, part.2)
}

/// Band `i` is the first band of the picture that the encoder fails on.
pub open spec fn first_failure(picture: Picture, i: int) -> bool {
    &&& 0 <= i < band_count(picture.height)
    &&& band_file(picture, i) is Err
    &&& forall|k: int| 0 <= k < i ==> (#[trigger] band_file(picture, k)) is Ok
}

/// What becomes of a band: the encoder's file as the band's image, or its
/// message as a failure to decode.
pub fn encoded(band: Band, outcome: Result<Vec<u8>, String>) -> (image: Result<BandImage, PipelineError>)
    ensures
        image == match outcome {
            Ok(png) => Ok::<BandImage, PipelineError>(BandImage { band, png }),
            Err(message) => Err::<BandImage, PipelineError>(PipelineError::Decode(message)),
        },
{
    match outcome {
        Ok(png) => Ok(BandImage { band, png }),
        Err(message) => Err(PipelineError::Decode(message)),
    }
}

/// Cuts a picture into its bands and encodes each as PNG. The bands come
/// back when the encoder succeeds on every one, in particular for a
/// picture without rows; else the work ends with the first band that the
/// encoder fails on, and with its message.
pub fn band_images(picture: &Picture) -> (images: Result<Vec<BandImage>, PipelineError>)
    requires
        picture.is_valid(),
    ensures
        images is Ok <==> forall|i: int|
            0 <= i < band_count(picture.height) ==> (#[trigger] band_file(*picture, i)) is Ok,
        match images {
            Ok(list) => {
                &&& list@.len() == band_count(picture.height)
                &&& forall|i: int|
                    0 <= i < list@.len() ==> (#[trigger] list@[i]).band == band_at(picture.height, i)
                        && band_file(*picture, i) == Ok::<Seq<u8>, Seq<char>>(list@[i].png@)
            },
            Err(e) => match e {
                PipelineError::Decode(message) => exists|i: int|
                    #![trigger band_file(*picture, i)]
                    first_failure(*picture, i) && band_file(*picture, i) == Err::<
                        Seq<u8>,
                        Seq<char>,
                    >(message@),
                _ => false,
            },
        },
{
    let parts: Vec<(Band, Picture)> = band_pictures(picture);
    let mut list: Vec<BandImage> = Vec::new();
    let mut i: usize = 0;
    while i < parts.len()
        invariant
            parts@.len() == band_count(picture.height),
            forall|k: int|
                0 <= k < parts@.len() ==> band_picture(*picture, k) == (
                    (#[trigger] parts@[k]).0,
                    parts@[k].1.width,
                    parts@[k].1.pixels@,
                ) && parts@[k].1.height == parts@[k].0.height,
            i <= parts@.len(),
            list@.len() == i,
            forall|k: int|
                0 <= k < i ==> (#[trigger] list@[k]).band == band_at(picture.height, k) && band_file(
                    *picture,
                    k,
                ) == Ok::<Seq<u8>, Seq<char>>(list@[k].png@),
        decreases parts@.len() - i,
    {
        let part: &Picture = &parts[i].1;
        let band: Band = parts[i].0;
        assert(band_picture(*picture, i as int) == (band, part.width, part.pixels@));
        assert(band == band_at(picture.height, i as int));
        match encoded(band, encode_png(part.width, part.height, part.pixels.as_slice())) {
            Ok(image) => {
                assert(band_file(*picture, i as int) == Ok::<Seq<u8>, Seq<char>>(image.png@));
                list.push(image);
            },
            Err(failure) => {
                proof {
                    assert(band_file(*picture, i as int) is Err);
                    assert forall|k: int| 0 <= k < i implies (#[trigger] band_file(
                        *picture,
                        k,
                    )) is Ok by {
                        assert(list@[k].band == band_at(picture.height, k));
                    }
                    assert(first_failure(*picture, i as int));
                }
                return Err(failure);
            },
        }
        i = i + 1;
    }
    proof {
        assert forall|k: int| 0 <= k < band_count(picture.height) implies (#[trigger] band_file(
            *picture,
            k,
        )) is Ok by {
            assert(list@[k].band == band_at(picture.height, k));
        }
    }
    Ok(list)
}

} // verus!
