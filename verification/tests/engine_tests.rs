use image_server::api::{upload, UploadError};
use image_server::database::{Database, GetImageError, InsertError};
use image_server::ident::ImageId;
use image_server::image_format::ImageFormat;
use image_server::transcode::{get_image, TranscodeTarget, TranscoderError};
use image_server::Config;

fn test_config(image_ttl: Option<i64>) -> Config {
    Config {
        max_image_width: None,
        max_image_height: None,
        max_image_size: None,
        max_memory_usage: None,
        backend_port: 8080,
        database_url: String::from("postgres://unused"),
        image_path: String::from("images"),
        image_ttl,
    }
}

fn encoded_bytes(w: u32, h: u32, format: image::ImageFormat) -> Vec<u8> {
    let img = image::DynamicImage::new_rgb8(w, h);
    let mut buf: Vec<u8> = Vec::new();
    img.write_to(&mut std::io::Cursor::new(&mut buf), format).unwrap();
    buf
}

fn target(
    format: Option<ImageFormat>,
    width: Option<u32>,
    height: Option<u32>,
) -> TranscodeTarget {
    TranscodeTarget { image_format: format, image_width: width, image_height: height }
}

fn ingest(db: &mut Database, data: &[u8], ttl_secs: Option<i64>, now: i64) -> ImageId {
    let id = upload(db, data, ttl_secs, now).unwrap();
    // run the post-ingest worker to make the original derivative durable
    db.compute_image(&id, ImageFormat::Png, data).unwrap();
    id
}

#[test]
fn happy_path_upload_and_serve_png() {
    let mut db = Database::new(&test_config(Some(3600)));
    let data = encoded_bytes(200, 100, image::ImageFormat::Png);
    let now = 1_000;

    let id = upload(&mut db, &data, Some(60), now).unwrap();
    // before the worker runs, the derivative is not yet computed
    assert!(matches!(
        get_image(&mut db, &id, target(None, None, None), now),
        Err(TranscoderError::NotComputed)
    ));

    db.compute_image(&id, ImageFormat::Png, &data).unwrap();
    let served = get_image(&mut db, &id, target(None, None, None), now + 1).unwrap();
    assert_eq!(ImageFormat::Png.to_mime_type(), "image/png");
    let img = image::load_from_memory(&served).unwrap();
    assert_eq!(image::GenericImageView::dimensions(&img), (200, 100));
}

#[test]
fn upload_rejects_non_image_bytes() {
    let mut db = Database::new(&test_config(Some(3600)));
    let r = upload(&mut db, b"certainly not an image", Some(60), 1_000);
    assert!(matches!(r, Err(UploadError::InvalidImageFormat)));
    // nothing was recorded
    assert!(matches!(
        get_image(&mut db, &ImageId { id: 7 }, target(None, None, None), 1_000),
        Err(TranscoderError::NotFound)
    ));
}

#[test]
fn two_uploads_mint_distinct_identifiers() {
    let mut db = Database::new(&test_config(Some(3600)));
    let data = encoded_bytes(8, 8, image::ImageFormat::Png);
    let a = upload(&mut db, &data, Some(60), 1_000).unwrap();
    let b = upload(&mut db, &data, Some(60), 1_000).unwrap();
    assert_ne!(a, b);
}

#[test]
fn resize_only_serves_aspect_preserving_dimensions() {
    let mut db = Database::new(&test_config(Some(3600)));
    let data = encoded_bytes(200, 100, image::ImageFormat::Png);
    let id = ingest(&mut db, &data, Some(60), 1_000);

    let served = get_image(&mut db, &id, target(None, Some(100), None), 1_001).unwrap();
    let img = image::load_from_memory(&served).unwrap();
    // Lanczos3 resize keeps the aspect ratio within (100, source height)
    assert_eq!(image::GenericImageView::dimensions(&img), (100, 50));
}

#[test]
fn reencode_persists_lazy_derivative_and_hits_fast_path() {
    let mut db = Database::new(&test_config(Some(3600)));
    let data = encoded_bytes(200, 100, image::ImageFormat::Png);
    let id = ingest(&mut db, &data, Some(60), 1_000);

    let first = get_image(&mut db, &id, target(Some(ImageFormat::Jpeg), None, None), 1_001)
        .unwrap();
    assert_eq!(
        image::guess_format(&first).unwrap(),
        image::ImageFormat::Jpeg
    );
    // the derivative was persisted: one jpg row beside the png row
    let rows = db.lookup(&id);
    assert_eq!(rows.len(), 2);
    assert_eq!(
        rows.iter().filter(|r| r.format == ImageFormat::Jpeg).count(),
        1
    );
    assert!(rows.iter().all(|r| r.computed));

    // the second read takes the fast path and returns identical bytes
    let second = get_image(&mut db, &id, target(Some(ImageFormat::Jpeg), None, None), 1_002)
        .unwrap();
    assert_eq!(first, second);
    assert_eq!(db.lookup(&id).len(), 2);
}

#[test]
fn format_roundtrip_served_bytes_sniff_as_requested() {
    let mut db = Database::new(&test_config(Some(3600)));
    let data = encoded_bytes(64, 32, image::ImageFormat::Png);
    let id = ingest(&mut db, &data, Some(600), 1_000);

    for (ours, theirs) in [
        (ImageFormat::Png, image::ImageFormat::Png),
        (ImageFormat::Jpeg, image::ImageFormat::Jpeg),
        (ImageFormat::WebP, image::ImageFormat::WebP),
    ] {
        let served = get_image(&mut db, &id, target(Some(ours), None, None), 1_001).unwrap();
        assert_eq!(image::guess_format(&served).unwrap(), theirs);
    }
}

#[test]
fn roundtrip_identity_preserves_dimensions_across_input_formats() {
    for input in [
        image::ImageFormat::Png,
        image::ImageFormat::Jpeg,
        image::ImageFormat::WebP,
    ] {
        let mut db = Database::new(&test_config(Some(3600)));
        let data = encoded_bytes(120, 80, input);
        let id = ingest(&mut db, &data, Some(60), 1_000);
        let served = get_image(&mut db, &id, target(None, None, None), 1_001).unwrap();
        let img = image::load_from_memory(&served).unwrap();
        assert_eq!(image::GenericImageView::dimensions(&img), (120, 80));
    }
}

#[test]
fn expiration_sweep_removes_row_and_file() {
    let mut db = Database::new(&test_config(Some(3600)));
    let data = encoded_bytes(16, 16, image::ImageFormat::Png);
    let id = ingest(&mut db, &data, Some(1), 1_000);
    // expires at 1001; two seconds later a read attempt sweeps it
    assert!(matches!(
        get_image(&mut db, &id, target(None, None, None), 1_003),
        Err(TranscoderError::NotFound)
    ));
    assert!(db.lookup(&id).is_empty());
    assert!(!db.store.exists_file(&id, ImageFormat::Png));
}

#[test]
fn ttl_cap_limits_requested_ttl() {
    let mut db = Database::new(&test_config(Some(5)));
    let data = encoded_bytes(16, 16, image::ImageFormat::Png);
    let now = 1_000;
    let id = upload(&mut db, &data, Some(3600), now).unwrap();
    let rows = db.lookup(&id);
    assert_eq!(rows.len(), 1);
    assert_eq!(rows[0].expires_at, now + 5);
    assert!(!rows[0].computed);
}

#[test]
fn ttl_requires_some_configuration() {
    let mut db = Database::new(&test_config(None));
    let data = encoded_bytes(16, 16, image::ImageFormat::Png);
    let r = upload(&mut db, &data, None, 1_000);
    assert!(matches!(
        r,
        Err(UploadError::Save(
            image_server::database::SaveImageError::TtlNotConfigured
        ))
    ));
    // a requested ttl alone is enough
    let id = upload(&mut db, &data, Some(60), 1_000).unwrap();
    assert_eq!(db.lookup(&id)[0].expires_at, 1_060);
}

#[test]
fn insert_conflicts_on_duplicate_key() {
    let mut db = Database::new(&test_config(Some(3600)));
    let id = ImageId { id: 42 };
    db.insert(id, ImageFormat::Png, 2_000).unwrap();
    assert!(matches!(
        db.insert(id, ImageFormat::Png, 3_000),
        Err(InsertError::Conflict)
    ));
    // a second format under the same identifier is a different derivative
    db.insert(id, ImageFormat::Jpeg, 2_000).unwrap();
    assert!(db.identifier_exists(&id));
    assert_eq!(db.lookup(&id).len(), 2);
}

#[test]
fn delete_expired_returns_only_computed_expired_rows() {
    let mut db = Database::new(&test_config(Some(3600)));
    let data = encoded_bytes(16, 16, image::ImageFormat::Png);
    // computed and expired: swept
    let swept_id = ingest(&mut db, &data, Some(1), 1_000);
    // never computed: its row stays even when expired
    let stuck_id = upload(&mut db, &data, Some(1), 1_000).unwrap();
    // computed and live: stays
    let live_id = ingest(&mut db, &data, Some(3600), 1_000);

    let removed = db.delete_expired(1_010);
    assert_eq!(removed.len(), 1);
    assert_eq!(removed[0].0, swept_id);
    assert_eq!(removed[0].1, ImageFormat::Png);
    assert!(db.store.remove(&swept_id, ImageFormat::Png));

    assert!(db.lookup(&swept_id).is_empty());
    assert_eq!(db.lookup(&stuck_id).len(), 1);
    assert_eq!(db.lookup(&live_id).len(), 1);
}

#[test]
fn not_yet_computed_after_expiry_of_sibling() {
    let mut db = Database::new(&test_config(Some(3600)));
    let data = encoded_bytes(16, 16, image::ImageFormat::Png);
    let id = upload(&mut db, &data, Some(60), 1_000).unwrap();
    // the row exists but the worker has not run: requesting another format
    // finds no computed source either
    assert!(matches!(
        get_image(&mut db, &id, target(Some(ImageFormat::Jpeg), None, None), 1_001),
        Err(TranscoderError::NotComputed)
    ));
}

#[test]
fn get_image_location_resolves_paths_and_sources() {
    let mut db = Database::new(&test_config(Some(3600)));
    let data = encoded_bytes(16, 16, image::ImageFormat::Png);
    let id = ingest(&mut db, &data, Some(60), 1_000);

    let hit = db.get_image_location(&id, ImageFormat::Png, 1_001).unwrap();
    let expected = format!("images/{}.png", id.to_hex());
    assert_eq!(hit.as_str(), expected);

    match db.get_image_location(&id, ImageFormat::WebP, 1_001) {
        Err(GetImageError::FoundButNotInFormat(src)) => {
            assert_eq!(src.format, ImageFormat::Png);
            assert_eq!(src.expires_at, 1_060);
            assert_eq!(src.path.as_str(), expected);
        },
        other => panic!("expected a transcode source, got {:?}", other),
    }

    assert!(matches!(
        db.get_image_location(&ImageId { id: 1 }, ImageFormat::Png, 1_001),
        Err(GetImageError::NotFound)
    ));
}

#[test]
fn read_of_one_identifier_sweeps_all_expired_derivatives() {
    let mut db = Database::new(&test_config(Some(3600)));
    let data = encoded_bytes(16, 16, image::ImageFormat::Png);
    let a = ingest(&mut db, &data, Some(1), 1_000);
    let b = ingest(&mut db, &data, Some(1), 1_000);
    // reading `a` after both expired triggers the sweep, which is global
    assert!(matches!(
        get_image(&mut db, &a, target(None, None, None), 1_010),
        Err(TranscoderError::NotFound)
    ));
    assert!(db.lookup(&a).is_empty());
    assert!(db.lookup(&b).is_empty());
    assert!(!db.store.exists_file(&b, ImageFormat::Png));
}

#[test]
fn determine_eol_follows_the_rule_table() {
    assert_eq!(Database::determine_eol(None, None, 100), None);
    assert_eq!(Database::determine_eol(None, Some(50), 100), Some(150));
    assert_eq!(Database::determine_eol(Some(30), None, 100), Some(130));
    assert_eq!(Database::determine_eol(Some(30), Some(50), 100), Some(130));
    assert_eq!(Database::determine_eol(Some(80), Some(50), 100), Some(150));
}

#[test]
fn serve_reports_codec_failure_for_unencodable_format() {
    // AVIF encoding is not built into this binary, so a transcode to it
    // fails inside the codec and surfaces as a codec error
    let mut db = Database::new(&test_config(Some(3600)));
    let data = encoded_bytes(16, 16, image::ImageFormat::Png);
    let id = ingest(&mut db, &data, Some(60), 1_000);
    assert!(matches!(
        get_image(&mut db, &id, target(Some(ImageFormat::Avif), None, None), 1_001),
        Err(TranscoderError::ImageError(_))
    ));
}

#[test]
fn serve_reports_internal_error_for_undecodable_stored_bytes() {
    let mut db = Database::new(&test_config(Some(3600)));
    let id = ImageId { id: 9 };
    // a derivative whose stored bytes do not decode cannot be resized
    db.save_raw_image(b"opaque bytes".to_vec(), id, ImageFormat::Png, 2_000)
        .unwrap();
    let verbatim = get_image(&mut db, &id, target(None, None, None), 1_000).unwrap();
    assert_eq!(verbatim, b"opaque bytes".to_vec());
    assert!(matches!(
        get_image(&mut db, &id, target(None, Some(8), None), 1_000),
        Err(TranscoderError::InternalServerError)
    ));
}

#[test]
fn mark_computed_is_idempotent() {
    let mut db = Database::new(&test_config(Some(3600)));
    let data = encoded_bytes(16, 16, image::ImageFormat::Png);
    let id = ingest(&mut db, &data, Some(60), 1_000);
    db.mark_computed(&id, ImageFormat::Png);
    db.mark_computed(&id, ImageFormat::Png);
    let rows = db.lookup(&id);
    assert_eq!(rows.len(), 1);
    assert!(rows[0].computed);
}
