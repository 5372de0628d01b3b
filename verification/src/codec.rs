use vstd::prelude::*;
use crate::image_format::ImageFormat;

verus! {

// ---------------------------------------------------------------------------
// The codec gateway: the one place where the core touches the pixel codec.
//
// A decoded image is opaque to the rest of the crate. Its observable identity
// is a sequence of bytes: the bytes it was decoded from, or the abstract
// token `resized_of(source, w, h)` once it has been resized. The named
// results below state that each codec operation is a function of that
// identity (and its plain arguments) alone, which is what lets the pipelines
// promise byte-identical derivatives.
// ---------------------------------------------------------------------------

/// The decoded-image handle of the `image` crate, carried opaquely.
#[verifier::external_type_specification]
#[verifier::external_body]
pub struct ExDynamicImage(image::DynamicImage);

/// The error type of the `image` crate, carried opaquely.
#[verifier::external_type_specification]
#[verifier::external_body]
pub struct ExImageError(image::ImageError);

/// What `image::guess_format` recognizes in the leading magic bytes,
/// restricted to the closed set of supported formats.
pub uninterp spec fn sniff_of(bytes: Seq<u8>) -> Option<ImageFormat>;

/// Whether `image::load_from_memory` decodes these bytes successfully.
pub uninterp spec fn decode_ok(bytes: Seq<u8>) -> bool;

/// The width of the image carried by this pixel identity.
pub uninterp spec fn width_of(img: Seq<u8>) -> u32;

/// The height of the image carried by this pixel identity.
pub uninterp spec fn height_of(img: Seq<u8>) -> u32;

/// The pixel identity produced by resizing within the bounds `(w, h)`.
pub uninterp spec fn resized_of(img: Seq<u8>, w: u32, h: u32) -> Seq<u8>;

/// The bytes produced by encoding this pixel identity to `f`, or `None`
/// where the codec cannot encode it in that format.
pub uninterp spec fn encode_of(img: Seq<u8>, f: ImageFormat) -> Option<Seq<u8>>;

/// A decoded image: the codec's opaque handle, together with the provenance
/// that fixes the identity of the pixel data it carries — the encoded bytes
/// it was decoded from, and the resize bounds if it has been resized.
pub struct DecodedImage {
    inner: image::DynamicImage,
    source: Vec<u8>,
    bounds: Option<(u32, u32)>,
}

impl View for DecodedImage {
    type V = Seq<u8>;

    closed spec fn view(&self) -> Seq<u8> {
        match self.bounds {
            None => self.source@,
            Some((w, h)) => resized_of(self.source@, w, h),
        }
    }
}

impl DecodedImage {
    /// Whether this image is straight out of the decoder, not yet resized.
    pub closed spec fn fresh(&self) -> bool {
        self.bounds is None
    }
}

/// Relies on `image::guess_format`: an educated guess from the magic bytes
/// at the start of the buffer, a function of the bytes alone. A recognized
/// format outside the supported set counts as unrecognized here.
#[verifier::external_body]
pub fn sniff_format(bytes: &[u8]) -> (r: Option<ImageFormat>)
    ensures
        r == sniff_of(bytes@),
{
    match image::guess_format(bytes) {
        Ok(image::ImageFormat::Png) => Some(ImageFormat::Png),
        Ok(image::ImageFormat::Jpeg) => Some(ImageFormat::Jpeg),
        Ok(image::ImageFormat::WebP) => Some(ImageFormat::WebP),
        Ok(image::ImageFormat::Hdr) => Some(ImageFormat::Hdr),
        Ok(image::ImageFormat::Avif) => Some(ImageFormat::Avif),
        _ => None,
    }
}

/// Relies on `image::load_from_memory`: whether a buffer decodes is a
/// function of the buffer alone. The decoded image's identity is the buffer.
#[verifier::external_body]
pub fn decode_bytes(bytes: &[u8]) -> (r: Result<DecodedImage, image::ImageError>)
    ensures
        r is Ok <==> decode_ok(bytes@),
        r is Ok ==> r->Ok_0@ == bytes@ && r->Ok_0.fresh(),
{
    match image::load_from_memory(bytes) {
        Ok(img) => Ok(DecodedImage { inner: img, source: bytes.to_vec(), bounds: None }),
        Err(e) => Err(e),
    }
}

impl DecodedImage {
    /// Relies on `image::DynamicImage::width`.
    #[verifier::external_body]
    pub fn width(&self) -> (r: u32)
        ensures
            r == width_of(self@),
    {
        self.inner.width()
    }

    /// Relies on `image::DynamicImage::height`.
    #[verifier::external_body]
    pub fn height(&self) -> (r: u32)
        ensures
            r == height_of(self@),
    {
        self.inner.height()
    }

    /// Relies on `image::DynamicImage::resize`: Lanczos3 resampling to the
    /// largest size that fits within `(w, h)` with the aspect ratio kept,
    /// a function of the source pixels and the bounds alone.
    #[verifier::external_body]
    pub fn resize(&self, w: u32, h: u32) -> (r: DecodedImage)
        requires
            self.fresh(),
        ensures
            r@ == resized_of(self@, w, h),
    {
        let resized = self.inner.resize(w, h, image::imageops::FilterType::Lanczos3);
        DecodedImage { inner: resized, source: self.source.clone(), bounds: Some((w, h)) }
    }

    /// Relies on `image::DynamicImage::write_to`: deterministic encoding of
    /// the pixel data into the requested format; whether it succeeds, and
    /// the bytes it emits, are functions of the pixels and the format alone.
    #[verifier::external_body]
    pub fn encode(&self, format: ImageFormat) -> (r: Result<Vec<u8>, image::ImageError>)
        ensures
            r is Ok <==> encode_of(self@, format) is Some,
            r is Ok ==> r->Ok_0@ == encode_of(self@, format)->0,
    {
        let handle = match format {
            ImageFormat::Png => image::ImageFormat::Png,
            ImageFormat::Jpeg => image::ImageFormat::Jpeg,
            ImageFormat::WebP => image::ImageFormat::WebP,
            ImageFormat::Hdr => image::ImageFormat::Hdr,
            ImageFormat::Avif => image::ImageFormat::Avif,
        };
        let mut bytes: Vec<u8> = Vec::new();
        match self.inner.write_to(&mut std::io::Cursor::new(&mut bytes), handle) {
            Ok(()) => Ok(bytes),
            Err(e) => Err(e),
        }
    }
}

} // verus!
