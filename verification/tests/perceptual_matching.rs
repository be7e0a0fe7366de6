use hyprdrive::dedup::file_entry::FileEntry;
use hyprdrive::dedup::perceptual::{hash_distance, image_candidates, perceptual_hash, similar_image_pairs};

fn png_bytes(shade: u8) -> Vec<u8> {
    let mut img = image::RgbImage::new(32, 32);
    for (x, _y, p) in img.enumerate_pixels_mut() {
        *p = image::Rgb([if x < 16 { shade } else { 255 - shade }, 0, 0]);
    }
    let mut out = std::io::Cursor::new(Vec::new());
    image::DynamicImage::ImageRgb8(img).write_to(&mut out, image::ImageFormat::Png).unwrap();
    out.into_inner()
}

#[test]
fn candidates_are_image_files_when_two_or_more() {
    let files = vec![
        FileEntry::from_metadata("/a/x.JPG".to_string(), 10, 0),
        FileEntry::from_metadata("/a/doc.pdf".to_string(), 10, 0),
        FileEntry::from_metadata("/a/y.png".to_string(), 10, 0),
    ];
    assert_eq!(image_candidates(&files), vec![0, 2]);
    assert!(image_candidates(&files[..2]).is_empty());
}

#[test]
fn hamming_distance_counts_differing_bits() {
    assert_eq!(hash_distance(&[0b1010_1010, 0xff], &[0b0000_0000, 0x0f]), 8);
    assert_eq!(hash_distance(&[1, 2, 3], &[1, 2, 3]), 0);
    // Only the bytes both hashes have count.
    assert_eq!(hash_distance(&[0xff], &[0x00, 0xff]), 8);
}

#[test]
fn pairs_within_threshold_in_order() {
    let hashes = vec![(3usize, vec![0u8, 0]), (5, vec![0u8, 1]), (9, vec![0xffu8, 0xff])];
    let m = similar_image_pairs(&hashes, 1);
    let got: Vec<(usize, usize, u32)> = m.iter().map(|x| (x.idx_a, x.idx_b, x.distance)).collect();
    assert_eq!(got, vec![(3, 5, 1)]);
    let all = similar_image_pairs(&hashes, 16);
    let got: Vec<(usize, usize, u32)> = all.iter().map(|x| (x.idx_a, x.idx_b, x.distance)).collect();
    assert_eq!(got, vec![(3, 5, 1), (3, 9, 16), (5, 9, 15)]);
}

#[test]
fn identical_images_hash_alike() {
    let a = perceptual_hash(&png_bytes(10), "png").expect("decodes");
    let b = perceptual_hash(&png_bytes(10), "png").expect("decodes");
    assert_eq!(hash_distance(&a, &b), 0);
    let expected = image_hasher::HasherConfig::new()
        .hash_size(16, 16)
        .to_hasher()
        .hash_image(&image::load_from_memory(&png_bytes(10)).unwrap());
    assert_eq!(a, expected.as_bytes().to_vec());
    // Not an image: no hash.
    assert!(perceptual_hash(b"not an image", "png").is_none());
    assert!(perceptual_hash(&png_bytes(10), "nosuchformat").is_none());
}

fn encoded(shade: u8, format: image::ImageFormat) -> Vec<u8> {
    let mut img = image::RgbaImage::new(32, 32);
    for (x, _y, p) in img.enumerate_pixels_mut() {
        *p = image::Rgba([if x < 16 { shade } else { 255 - shade }, 0, 0, 255]);
    }
    let mut out = std::io::Cursor::new(Vec::new());
    image::DynamicImage::ImageRgba8(img).write_to(&mut out, format).unwrap();
    out.into_inner()
}

#[test]
fn every_listed_image_format_is_hashed() {
    let png = perceptual_hash(&png_bytes(10), "png").unwrap();
    assert_eq!(png.len(), 32);
    for (format, ext) in [
        (image::ImageFormat::Bmp, "bmp"),
        (image::ImageFormat::Gif, "gif"),
        (image::ImageFormat::Tiff, "tiff"),
        (image::ImageFormat::Tiff, "tif"),
        (image::ImageFormat::WebP, "webp"),
        (image::ImageFormat::Jpeg, "jpg"),
    ] {
        let bytes = if format == image::ImageFormat::Jpeg {
            png_bytes(10)
        } else {
            encoded(10, format)
        };
        let bytes = if format == image::ImageFormat::Jpeg {
            let img = image::load_from_memory(&bytes).unwrap();
            let mut out = std::io::Cursor::new(Vec::new());
            img.write_to(&mut out, image::ImageFormat::Jpeg).unwrap();
            out.into_inner()
        } else {
            bytes
        };
        let h = perceptual_hash(&bytes, ext);
        assert!(h.is_some(), "{ext} did not hash");
        assert_eq!(h.unwrap().len(), 32);
    }
    assert!(perceptual_hash(b"not an image", "gif").is_none());
}
