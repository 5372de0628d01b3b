use image_server::api::{empty_string_as_none_image_format, empty_string_as_none_u32, parse_image_settings, QueryRejection};
use image_server::image_format::ImageFormat;

#[test]
fn from_str_accepts_canonical_tags() {
    assert_eq!(ImageFormat::from_str("png"), Some(ImageFormat::Png));
    assert_eq!(ImageFormat::from_str("jpg"), Some(ImageFormat::Jpeg));
    assert_eq!(ImageFormat::from_str("jpeg"), Some(ImageFormat::Jpeg));
    assert_eq!(ImageFormat::from_str("webp"), Some(ImageFormat::WebP));
    assert_eq!(ImageFormat::from_str("hdr"), Some(ImageFormat::Hdr));
    assert_eq!(ImageFormat::from_str("avif"), Some(ImageFormat::Avif));
}

#[test]
fn from_str_rejects_unknown_tags() {
    assert_eq!(ImageFormat::from_str("bmp"), None);
    assert_eq!(ImageFormat::from_str(""), None);
    assert_eq!(ImageFormat::from_str("PNG"), None);
    assert_eq!(ImageFormat::from_str("jpg "), None);
}

#[test]
fn to_str_gives_canonical_tags() {
    assert_eq!(ImageFormat::Png.to_str(), "png");
    assert_eq!(ImageFormat::Jpeg.to_str(), "jpg");
    assert_eq!(ImageFormat::WebP.to_str(), "webp");
    assert_eq!(ImageFormat::Hdr.to_str(), "hdr");
    assert_eq!(ImageFormat::Avif.to_str(), "avif");
}

#[test]
fn tag_roundtrip_all_formats() {
    for f in [
        ImageFormat::Png,
        ImageFormat::Jpeg,
        ImageFormat::WebP,
        ImageFormat::Hdr,
        ImageFormat::Avif,
    ] {
        assert_eq!(ImageFormat::from_str(f.to_str()), Some(f));
        assert_eq!(f.extension(), f.to_str());
    }
}

#[test]
fn mime_types_match_registry() {
    assert_eq!(ImageFormat::Png.to_mime_type(), "image/png");
    assert_eq!(ImageFormat::Jpeg.to_mime_type(), "image/jpeg");
    assert_eq!(ImageFormat::WebP.to_mime_type(), "image/webp");
    assert_eq!(ImageFormat::Hdr.to_mime_type(), "image/vnd.radiance");
    assert_eq!(ImageFormat::Avif.to_mime_type(), "image/avif");
}

#[test]
fn default_format_is_png() {
    assert_eq!(ImageFormat::default(), ImageFormat::Png);
}

#[test]
fn format_param_empty_is_absent() {
    assert_eq!(empty_string_as_none_image_format(None), Ok(None));
    assert_eq!(empty_string_as_none_image_format(Some("")), Ok(None));
    assert_eq!(
        empty_string_as_none_image_format(Some("webp")),
        Ok(Some(ImageFormat::WebP))
    );
}

#[test]
fn format_param_rejects_unknown() {
    assert_eq!(
        empty_string_as_none_image_format(Some("bmp")),
        Err(QueryRejection::UnsupportedFormat)
    );
}

#[test]
fn u32_param_empty_is_absent() {
    assert_eq!(empty_string_as_none_u32(None), Ok(None));
    assert_eq!(empty_string_as_none_u32(Some("")), Ok(None));
    assert_eq!(empty_string_as_none_u32(Some("640")), Ok(Some(640)));
    assert_eq!(
        empty_string_as_none_u32(Some("x")),
        Err(QueryRejection::InvalidNumber)
    );
    assert_eq!(
        empty_string_as_none_u32(Some("4294967296")),
        Err(QueryRejection::InvalidNumber)
    );
}

#[test]
fn image_settings_parse_and_reject() {
    let ok = parse_image_settings(Some("jpg"), Some("100"), None).unwrap();
    assert_eq!(ok.image_format, Some(ImageFormat::Jpeg));
    assert_eq!(ok.image_width, Some(100));
    assert_eq!(ok.image_height, None);

    // an unknown format rejects the whole query: the policy behind a 400
    assert!(matches!(
        parse_image_settings(Some("bmp"), None, None),
        Err(QueryRejection::UnsupportedFormat)
    ));
    assert!(matches!(
        parse_image_settings(Some("png"), Some("-3"), None),
        Err(QueryRejection::InvalidNumber)
    ));
}
