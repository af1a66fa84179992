use engine::image::{bytes, decode, id, info, register, Format, Images};

/// A PNG of `w` × `h` opaque red pixels.
fn png(w: u32, h: u32) -> Vec<u8> {
    let mut out = Vec::new();
    let mut encoder = png::Encoder::new(&mut out, w, h);
    encoder.set_color(png::ColorType::Rgb);
    let mut writer = encoder.write_header().unwrap();
    let data: Vec<u8> = (0..w * h).flat_map(|_| [255, 0, 0]).collect();
    writer.write_image_data(&data).unwrap();
    writer.finish().unwrap();
    out
}

/// A PNG of `w` × `h` gray pixels at half coverage.
fn gray_png(w: u32, h: u32, gray: u8, alpha: u8) -> Vec<u8> {
    let mut out = Vec::new();
    let mut encoder = png::Encoder::new(&mut out, w, h);
    encoder.set_color(png::ColorType::GrayscaleAlpha);
    let mut writer = encoder.write_header().unwrap();
    let data: Vec<u8> = (0..w * h).flat_map(|_| [gray, alpha]).collect();
    writer.write_image_data(&data).unwrap();
    writer.finish().unwrap();
    out
}

#[test]
fn an_image_is_registered_once_by_its_hash_and_decodes() {
    let mut images = Images::new();
    let info = register(&mut images, png(3, 2)).unwrap();
    assert_eq!((info.width, info.height), (3, 2));
    assert_eq!(register(&mut images, png(3, 2)).unwrap(), info);
    let id = id(&images, &info.hash).unwrap();
    assert_eq!(bytes(&images, id).to_vec(), png(3, 2));
    let e = &images.entries[id as usize];
    let px = decode(e.format, &e.bytes).unwrap();
    assert_eq!((px.width, px.height), (3, 2));
    assert_eq!(px.data[0], 255);
}

#[test]
fn other_files_are_not_images() {
    let mut images = Images::new();
    assert!(register(&mut images, b"GIF89a".to_vec()).is_err());
    assert!(register(&mut images, b"\x89PNG broken".to_vec()).is_err());
}

#[test]
fn registering_twice_keeps_one_entry_and_ids_follow_the_order() {
    let mut images = Images::new();
    let a = register(&mut images, png(1, 1)).unwrap();
    let b = register(&mut images, png(2, 5)).unwrap();
    register(&mut images, png(1, 1)).unwrap();
    assert_eq!(images.entries.len(), 2);
    assert_eq!(id(&images, &a.hash), Some(0));
    assert_eq!(id(&images, &b.hash), Some(1));
    assert_eq!(id(&images, "0000000000000000"), None);
    assert_eq!(info(&images, &b.hash).map(|i| (i.width, i.height)), Some((2, 5)));
    assert!(info(&images, "nothing").is_none());
    assert!(bytes(&images, 7).is_empty());
}

#[test]
fn the_hash_of_an_image_is_the_fnv_hash_of_its_bytes() {
    let mut images = Images::new();
    let file = png(1, 1);
    let info = register(&mut images, file.clone()).unwrap();
    assert_eq!(info.hash, engine::content_hash(&file));
    assert_eq!(info.hash.len(), 16);
}

#[test]
fn formats_are_told_by_their_signatures() {
    assert_eq!(engine::image::format(&[0x89, b'P', b'N', b'G', 1]), Ok(Format::Png));
    assert_eq!(engine::image::format(&[0xff, 0xd8, 0xff]), Ok(Format::Jpeg));
    assert_eq!(engine::image::format(&[0xff, 0xd8]), Err("not a PNG or JPEG image".to_string()));
    assert_eq!(engine::image::format(b"GIF89a"), Err("not a PNG or JPEG image".to_string()));
}

#[test]
fn a_broken_jpeg_is_no_image() {
    let mut images = Images::new();
    assert_eq!(
        register(&mut images, vec![0xff, 0xd8, 0xff, 0]),
        Err("not a PNG or JPEG image".to_string())
    );
    assert!(images.entries.is_empty());
    assert!(decode(Format::Jpeg, &[0xff, 0xd8, 0xff, 0]).is_none());
}

#[test]
fn decoded_pixels_are_premultiplied_rgba() {
    let px = decode(Format::Png, &gray_png(2, 1, 200, 128)).unwrap();
    assert_eq!((px.width, px.height), (2, 1));
    // 200 * 128 / 255 rounded
    assert_eq!(px.data, vec![100, 100, 100, 128, 100, 100, 100, 128]);
    assert!(decode(Format::Png, b"\x89PNG broken").is_none());
}

#[test]
fn the_pdf_gets_registered_images_only() {
    let mut images = Images::new();
    register(&mut images, png(4, 4)).unwrap();
    assert!(engine::image::pdf(&images, 0).is_some());
    assert!(engine::image::pdf(&images, 1).is_none());
}

/// A baseline JPEG of 8 × 8 mid gray pixels: every coefficient is zero.
fn jpeg() -> Vec<u8> {
    let mut b = vec![0xff, 0xd8, 0xff, 0xdb, 0x00, 0x43, 0x00];
    b.extend([1u8; 64]);
    b.extend([0xff, 0xc0, 0x00, 0x0b, 8, 0, 8, 0, 8, 1, 1, 0x11, 0]);
    for class in [0x00u8, 0x10] {
        b.extend([0xff, 0xc4, 0x00, 0x14, class, 1]);
        b.extend([0u8; 15]);
        b.push(0);
    }
    b.extend([0xff, 0xda, 0x00, 0x08, 1, 1, 0x00, 0, 63, 0, 0x3f, 0xff, 0xd9]);
    b
}

#[test]
fn a_jpeg_is_registered_with_its_size_and_decodes_to_rgba() {
    let mut images = Images::new();
    let info = register(&mut images, jpeg()).unwrap();
    assert_eq!((info.width, info.height), (8, 8));
    assert_eq!(images.entries[0].format, Format::Jpeg);
    let px = decode(Format::Jpeg, &jpeg()).unwrap();
    assert_eq!((px.width, px.height), (8, 8));
    assert_eq!(px.data.len(), 8 * 8 * 4);
    assert!(px.data.chunks(4).all(|p| p == [128, 128, 128, 255]));
}

#[test]
fn the_pdf_gets_the_image_of_the_id_asked_for() {
    let mut images = Images::new();
    register(&mut images, png(1, 1)).unwrap();
    register(&mut images, png(2, 3)).unwrap();
    let second = engine::image::pdf(&images, 1).unwrap();
    let data = krilla::Data::from(std::sync::Arc::new(png(2, 3)));
    assert!(second == krilla::image::Image::from_png(data, true).unwrap());
    assert_eq!(second.size(), (2, 3));
    assert!(second != engine::image::pdf(&images, 0).unwrap());
}
