use vstd::prelude::*;
use vstd::string::*;

verus! {

/// The closed set of formats this service stores and serves.
///
/// The registry below is the single source of truth for the mapping between
/// these variants, their canonical lowercase tags (which double as file
/// extensions and as the durable representation in the metadata store), and
/// their MIME types.
#[derive(Debug, Clone, Copy, PartialEq, Eq, Structural)]
pub enum ImageFormat {
    Png,
    Jpeg,
    WebP,
    Hdr,
    Avif,
}

/// Compares two string slices by their character sequences.
pub fn str_eq(a: &str, b: &str) -> (r: bool)
    ensures
        r == (a@ == b@),
{
    let sa = String::from_str(a);
    let sb = String::from_str(b);
    sa == sb
}

/// Maps a wire tag to a format: the canonical tags are accepted, and `jpeg`
/// is accepted as an alias for `jpg`. Anything else is not a format.
pub open spec fn parse_format_spec(s: Seq<char>) -> Option<ImageFormat> {
    if s == "png"@ {
        Some(ImageFormat::Png)
    } else if s == "jpg"@ || s == "jpeg"@ {
        Some(ImageFormat::Jpeg)
    } else if s == "webp"@ {
        Some(ImageFormat::WebP)
    } else if s == "hdr"@ {
        Some(ImageFormat::Hdr)
    } else if s == "avif"@ {
        Some(ImageFormat::Avif)
    } else {
        None
    }
}

impl ImageFormat {
    /// The canonical lowercase tag of the format.
    pub open spec fn tag_spec(self) -> Seq<char> {
        match self {
            ImageFormat::Png => "png"@,
            ImageFormat::Jpeg => "jpg"@,
            ImageFormat::WebP => "webp"@,
            ImageFormat::Hdr => "hdr"@,
            ImageFormat::Avif => "avif"@,
        }
    }

    /// The MIME type served for the format.
    pub open spec fn mime_spec(self) -> Seq<char> {
        match self {
            ImageFormat::Png => "image/png"@,
            ImageFormat::Jpeg => "image/jpeg"@,
            ImageFormat::WebP => "image/webp"@,
            ImageFormat::Hdr => "image/vnd.radiance"@,
            ImageFormat::Avif => "image/avif"@,
        }
    }

    pub fn from_str(s: &str) -> (r: Option<ImageFormat>)
        ensures
            r == parse_format_spec(s@),
    {
        if str_eq(s, "png") {
            Some(ImageFormat::Png)
        } else if str_eq(s, "jpg") || str_eq(s, "jpeg") {
            Some(ImageFormat::Jpeg)
        } else if str_eq(s, "webp") {
            Some(ImageFormat::WebP)
        } else if str_eq(s, "hdr") {
            Some(ImageFormat::Hdr)
        } else if str_eq(s, "avif") {
            Some(ImageFormat::Avif)
        } else {
            None
        }
    }

    pub fn to_str(self) -> (r: &'static str)
        ensures
            r@ == self.tag_spec(),
    {
        match self {
            ImageFormat::Png => "png",
            ImageFormat::Jpeg => "jpg",
            ImageFormat::WebP => "webp",
            ImageFormat::Hdr => "hdr",
            ImageFormat::Avif => "avif",
        }
    }

    /// The file extension equals the canonical tag.
    pub fn extension(self) -> (r: &'static str)
        ensures
            r@ == self.tag_spec(),
    {
        self.to_str()
    }

    /// Relies on `image::ImageFormat::to_mime_type`, which returns a fixed
    /// MIME string for each format.
    #[verifier::external_body]
    pub fn to_mime_type(&self) -> (r: &'static str)
        ensures
            r@ == self.mime_spec(),
    {
        let handle = match self {
            ImageFormat::Png => image::ImageFormat::Png,
            ImageFormat::Jpeg => image::ImageFormat::Jpeg,
            ImageFormat::WebP => image::ImageFormat::WebP,
            ImageFormat::Hdr => image::ImageFormat::Hdr,
            ImageFormat::Avif => image::ImageFormat::Avif,
        };
        handle.to_mime_type()
    }
}

impl Default for ImageFormat {
    /// The default format, used when a request names none, is PNG.
    fn default() -> (r: Self)
        ensures
            r == ImageFormat::Png,
    {
        ImageFormat::Png
    }
}

/// Parsing a format's own tag yields the format back: the registry is a
/// bijection between the five formats and their canonical tags.
pub proof fn lemma_tag_roundtrip(f: ImageFormat)
    ensures
        parse_format_spec(f.tag_spec()) == Some(f),
{
    reveal_strlit("png");
    reveal_strlit("jpg");
    reveal_strlit("jpeg");
    reveal_strlit("webp");
    reveal_strlit("hdr");
    reveal_strlit("avif");
    assert("png"@[0] == 'p' && "jpg"@[0] == 'j' && "jpeg"@[0] == 'j');
    assert("webp"@[0] == 'w' && "hdr"@[0] == 'h' && "avif"@[0] == 'a');
    assert("png"@.len() == 3 && "jpg"@.len() == 3 && "hdr"@.len() == 3);
    assert("jpeg"@.len() == 4 && "webp"@.len() == 4 && "avif"@.len() == 4);
}

/// Every canonical tag is three or four characters long.
pub proof fn lemma_tag_len(f: ImageFormat)
    ensures
        3 <= f.tag_spec().len() <= 4,
{
    reveal_strlit("png");
    reveal_strlit("jpg");
    reveal_strlit("webp");
    reveal_strlit("hdr");
    reveal_strlit("avif");
}

/// Every accepted tag maps back to the canonical tag of its format, except
/// the alias `jpeg`, whose canonical spelling is `jpg`.
pub proof fn lemma_parse_canonical(s: Seq<char>, f: ImageFormat)
    requires
        parse_format_spec(s) == Some(f),
    ensures
        s == f.tag_spec() || (s == "jpeg"@ && f == ImageFormat::Jpeg),
{
}

} // verus!
