use image_server::config::{parse_config, parse_i64, parse_u32, parse_u64, ConfigError};
use image_server::database::ImagePath;
use image_server::ident::ImageId;
use image_server::image_format::ImageFormat;

#[test]
fn parse_u64_accepts_digits() {
    assert_eq!(parse_u64("0"), Some(0));
    assert_eq!(parse_u64("00042"), Some(42));
    assert_eq!(parse_u64("18446744073709551615"), Some(u64::MAX));
}

#[test]
fn parse_u64_rejects_bad_input() {
    assert_eq!(parse_u64(""), None);
    assert_eq!(parse_u64("12a"), None);
    assert_eq!(parse_u64(" 12"), None);
    assert_eq!(parse_u64("18446744073709551616"), None);
}

#[test]
fn parse_u32_bounds() {
    assert_eq!(parse_u32("4294967295"), Some(u32::MAX));
    assert_eq!(parse_u32("4294967296"), None);
}

#[test]
fn parse_i64_signs() {
    assert_eq!(parse_i64("60"), Some(60));
    assert_eq!(parse_i64("-60"), Some(-60));
    assert_eq!(parse_i64("9223372036854775807"), Some(i64::MAX));
    assert_eq!(parse_i64("-"), None);
    assert_eq!(parse_i64("--1"), None);
    assert_eq!(parse_i64("9223372036854775808"), None);
}

#[test]
fn identifier_renders_as_32_hex_digits() {
    let id = ImageId { id: 1 };
    assert_eq!(id.to_hex(), "00000000000000000000000000000001");
    let id = ImageId { id: 0x0123_4567_89ab_cdef_0123_4567_89ab_cdef };
    assert_eq!(id.to_hex(), "0123456789abcdef0123456789abcdef");
}

#[test]
fn identifier_roundtrip() {
    let id = ImageId { id: 0xdead_beef_0000_0000_0000_0000_cafe_f00d };
    let back = ImageId::from_str(id.to_hex().as_str()).unwrap();
    assert_eq!(back, id);
    // uppercase digits are accepted too
    assert_eq!(
        ImageId::from_str("0123456789ABCDEF0123456789ABCDEF").unwrap().id,
        0x0123_4567_89ab_cdef_0123_4567_89ab_cdef
    );
}

#[test]
fn identifier_rejects_malformed() {
    assert!(ImageId::from_str("").is_none());
    assert!(ImageId::from_str("0123456789abcdef0123456789abcde").is_none());
    assert!(ImageId::from_str("0123456789abcdef0123456789abcdeg").is_none());
    // the hyphenated rendering is not the canonical 32-digit form
    assert!(ImageId::from_str("01234567-89ab-cdef-0123-456789abcdef").is_none());
}

#[test]
fn image_path_concatenates_root_hex_and_extension() {
    let id = ImageId { id: 0xff };
    let path = ImagePath::new("images", &id, ImageFormat::Jpeg);
    assert_eq!(path.as_str(), "images/000000000000000000000000000000ff.jpg");
    let path = ImagePath::new("/var/data", &id, ImageFormat::WebP);
    assert_eq!(path.as_str(), "/var/data/000000000000000000000000000000ff.webp");
}

#[test]
fn config_defaults_apply() {
    let c = parse_config(None, None, None, None, None, Some("postgres://db"), None, None).unwrap();
    assert_eq!(c.backend_port, 8080);
    assert_eq!(c.image_path, "images");
    assert_eq!(c.database_url, "postgres://db");
    assert_eq!(c.image_ttl, None);
    assert_eq!(c.max_image_size, None);
}

#[test]
fn config_parses_values() {
    let c = parse_config(
        Some("1920"),
        Some("1080"),
        Some("1048576"),
        Some("256"),
        Some("9000"),
        Some("postgres://db"),
        Some("/srv/images"),
        Some("300"),
    )
    .unwrap();
    assert_eq!(c.max_image_width, Some(1920));
    assert_eq!(c.max_image_height, Some(1080));
    assert_eq!(c.max_image_size, Some(1048576));
    assert_eq!(c.max_memory_usage, Some(256));
    assert_eq!(c.backend_port, 9000);
    assert_eq!(c.image_path, "/srv/images");
    assert_eq!(c.image_ttl, Some(300));
}

#[test]
fn config_rejects_bad_values() {
    assert!(matches!(
        parse_config(Some("wide"), None, None, None, None, Some("u"), None, None),
        Err(ConfigError::InvalidMaxImageWidth)
    ));
    assert!(matches!(
        parse_config(None, None, None, None, None, None, None, None),
        Err(ConfigError::MissingDatabaseUrl)
    ));
    assert!(matches!(
        parse_config(None, None, None, None, Some("25565"), Some("u"), None, None),
        Err(ConfigError::BackendPortTooLarge)
    ));
    assert!(
        parse_config(None, None, None, None, Some("25564"), Some("u"), None, None).is_ok()
    );
    assert!(matches!(
        parse_config(None, None, None, None, None, Some("u"), None, Some("soon")),
        Err(ConfigError::InvalidImageTtl)
    ));
    assert!(matches!(
        parse_config(None, Some("tall"), None, None, None, Some("u"), None, None),
        Err(ConfigError::InvalidMaxImageHeight)
    ));
    assert!(matches!(
        parse_config(None, None, Some("big"), None, None, Some("u"), None, None),
        Err(ConfigError::InvalidMaxImageSize)
    ));
    assert!(matches!(
        parse_config(None, None, None, Some("lots"), None, Some("u"), None, None),
        Err(ConfigError::InvalidMaxMemoryUsage)
    ));
    assert!(matches!(
        parse_config(None, None, None, None, Some("70000"), Some("u"), None, None),
        Err(ConfigError::InvalidBackendPort)
    ));
}
