//! Grey images: checking a rendered buffer against its size, and encoding it in the file format
//! that a path's extension names.
use vstd::prelude::*;
use image::{ImageError, ImageFormat};

verus! {

/// `image::ImageError`, carried through as it is.
#[verifier::external_type_specification]
#[verifier::external_body]
pub struct ExImageError(ImageError);

/// `image::ImageFormat`, carried through as it is.
#[verifier::external_type_specification]
#[verifier::external_body]
pub struct ExImageFormat(ImageFormat);

/// Errors that can arise from using one of these utility functions.
#[derive(Debug)]
pub enum Error {
    /// The buffer is too small for an image of this size (pixels per side).
    ImageSize(u32),
    /// The image crate failed.
    Image(ImageError),
}

/// A grey image of `width` by `height` pixels, one byte each, row by row (as the image crate's
/// `GrayImage` holds it; any bytes beyond the last pixel are carried along).
pub struct GrayImage {
    width: u32,
    height: u32,
    pixels: Vec<u8>,
}

impl GrayImage {
    /// The width, in pixels.
    pub closed spec fn spec_width(&self) -> u32 {
        self.width
    }

    /// The height, in pixels.
    pub closed spec fn spec_height(&self) -> u32 {
        self.height
    }

    /// The bytes held, the pixels first.
    pub closed spec fn spec_bytes(&self) -> Seq<u8> {
        self.pixels@
    }

    /// The image holds a byte for each pixel.
    #[verifier::type_invariant]
    closed spec fn fits(&self) -> bool {
        self.width * self.height <= self.pixels@.len()
    }

    /// The width, in pixels.
    pub fn width(&self) -> (w: u32)
        ensures
            w == self.spec_width(),
    {
        self.width
    }

    /// The height, in pixels.
    pub fn height(&self) -> (h: u32)
        ensures
            h == self.spec_height(),
    {
        self.height
    }

    /// The pixels, row by row.
    pub fn pixels(&self) -> (p: &[u8])
        ensures
            p@ == self.spec_bytes().take(self.spec_width() * self.spec_height()),
    {
        proof {
            use_type_invariant(self);
        }
        let w = self.width as usize;
        let h = self.height as usize;
        let len = self.pixels.len();
        proof {
            assert(w * h <= len);
        }
        vstd::slice::slice_subrange(self.pixels.as_slice(), 0, w * h)
    }
}

/// A buffer of `len` bytes holds a grey image of `width` by `height` pixels, as
/// `image::ImageBuffer::from_raw` decides it: the number of pixels fits in a `usize` and is at
/// most `len`.
pub open spec fn image_fits(width: u32, height: u32, len: nat) -> bool {
    width * height <= usize::MAX && width * height <= len
}

/// Convert the bytes into a square image of `image_size` pixels per side.
pub fn to_image(image_size: u32, bytes: Vec<u8>) -> (r: Result<GrayImage, Error>)
    ensures
        image_fits(image_size, image_size, bytes@.len()) <==> r is Ok,
        r matches Ok(img) ==> img.spec_width() == image_size && img.spec_height() == image_size
            && img.spec_bytes() == bytes@,
        r matches Err(e) ==> e matches Error::ImageSize(n) && n == image_size,
{
    let side = image_size as usize;
    match side.checked_mul(side) {
        Some(n) => {
            if n <= bytes.len() {
                Ok(GrayImage { width: image_size, height: image_size, pixels: bytes })
            } else {
                Err(Error::ImageSize(image_size))
            }
        },
        None => Err(Error::ImageSize(image_size)),
    }
}

/// The file format that `image::ImageFormat::from_path` gives for a path (from its extension),
/// if any.
pub uninterp spec fn image_format_of_path(path: Seq<char>) -> Option<ImageFormat>;

/// The file contents that `image::write_buffer_with_format` writes for the grey pixels
/// `pixels` of a `width` by `height` image in `format`, if it succeeds.
pub uninterp spec fn gray_encoding(
    format: ImageFormat,
    pixels: Seq<u8>,
    width: u32,
    height: u32,
) -> Option<Seq<u8>>;

/// `image::ImageFormat::from_path`: the format that the path's extension names, or an error
/// where it names none. Its result depends on the path alone; what it is is not stated here
/// (the image crate's table of extensions).
#[verifier::external_body]
fn format_from_path(path: &str) -> (r: Result<ImageFormat, ImageError>)
    ensures
        match r {
            Ok(f) => image_format_of_path(path@) == Some(f),
            Err(_) => image_format_of_path(path@) is None,
        },
{
    ImageFormat::from_path(path)
}

/// `image::write_buffer_with_format` into memory, for 8-bit grey pixels: the encoded file, or
/// the error of the encoder (such as a format that it cannot write). Its result depends on its
/// arguments alone; the encoding itself is not stated here. The image crate panics where the
/// buffer does not hold exactly one byte per pixel, hence the `requires`.
#[verifier::external_body]
fn encode_gray(pixels: &[u8], width: u32, height: u32, format: ImageFormat) -> (r: Result<
    Vec<u8>,
    ImageError,
>)
    requires
        pixels@.len() == width * height,
    ensures
        match r {
            Ok(b) => gray_encoding(format, pixels@, width, height) == Some(b@),
            Err(_) => gray_encoding(format, pixels@, width, height) is None,
        },
{
    let mut out = std::io::Cursor::new(Vec::new());
    image::write_buffer_with_format(&mut out, pixels, width, height, image::ExtendedColorType::L8, format)
        .map(|()| out.into_inner())
}

/// Encode the bytes as a square grey image of `image_size` pixels per side, in the file format
/// that the extension of `path` names; the result is what is to be written to `path`.
///
/// Fails where the bytes do not fit the size, where the extension names no format, and where
/// the format's encoder fails, in this order.
pub fn write_image(image_size: u32, bytes: Vec<u8>, path: &str) -> (r: Result<Vec<u8>, Error>)
    ensures
        !image_fits(image_size, image_size, bytes@.len()) <==> r matches Err(Error::ImageSize(_)),
        r matches Err(Error::ImageSize(n)) ==> n == image_size,
        image_fits(image_size, image_size, bytes@.len()) ==> match image_format_of_path(path@) {
            None => r matches Err(Error::Image(_)),
            Some(f) => match gray_encoding(
                f,
                bytes@.take(image_size * image_size),
                image_size,
                image_size,
            ) {
                Some(b) => r matches Ok(v) && v@ == b,
                None => r matches Err(Error::Image(_)),
            },
        },
{
    let img = match to_image(image_size, bytes) {
        Ok(img) => img,
        Err(e) => return Err(e),
    };
    let format = match format_from_path(path) {
        Ok(f) => f,
        Err(e) => return Err(Error::Image(e)),
    };
    let pixels = img.pixels();
    proof {
        assert(pixels@.len() == image_size * image_size);
    }
    match encode_gray(pixels, img.width(), img.height(), format) {
        Ok(b) => Ok(b),
        Err(e) => Err(Error::Image(e)),
    }
}

/// A file name with the extension of the PNG format.
pub open spec fn png_path() -> Seq<char> {
    seq!['i', 'm', 'a', 'g', 'e', '.', 'p', 'n', 'g']
}

/// Convert the image to the bytes of a PNG file: encoded in the format that a path with the
/// `.png` extension names.
pub fn to_png(image: &GrayImage) -> (r: Result<Vec<u8>, Error>)
    ensures
        match image_format_of_path(png_path()) {
            None => r matches Err(Error::Image(_)),
            Some(f) => match gray_encoding(
                f,
                image.spec_bytes().take(image.spec_width() * image.spec_height()),
                image.spec_width(),
                image.spec_height(),
            ) {
                Some(b) => r matches Ok(v) && v@ == b,
                None => r matches Err(Error::Image(_)),
            },
        },
{
    let path = "image.png";
    proof {
        reveal_strlit("image.png");
        assert(path@ == png_path());
    }
    let format = match format_from_path(path) {
        Ok(f) => f,
        Err(e) => return Err(Error::Image(e)),
    };
    let pixels = image.pixels();
    proof {
        use_type_invariant(image);
        assert(pixels@.len() == image.spec_width() * image.spec_height());
    }
    match encode_gray(pixels, image.width(), image.height(), format) {
        Ok(b) => Ok(b),
        Err(e) => Err(Error::Image(e)),
    }
}

} // verus!
