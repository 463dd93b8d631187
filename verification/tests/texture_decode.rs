use voxel_renderer::texture::{DecodeError, Image};

fn sample_png(width: u32, height: u32) -> (Vec<u8>, Vec<u8>) {
    let mut img = image::RgbaImage::new(width, height);
    for x in 0..width {
        for y in 0..height {
            img.put_pixel(
                x,
                y,
                image::Rgba([(x * 40) as u8, (y * 40) as u8, 200, 255]),
            );
        }
    }
    let mut bytes: Vec<u8> = Vec::new();
    img.write_to(
        &mut std::io::Cursor::new(&mut bytes),
        image::ImageOutputFormat::Png,
    )
    .unwrap();
    (bytes, img.into_raw())
}

#[test]
fn decodes_a_png_to_rgba_pixels() {
    let (bytes, pixels) = sample_png(2, 3);
    let img = Image::from_bytes(&bytes).unwrap();
    assert_eq!(img.width, 2);
    assert_eq!(img.height, 3);
    assert_eq!(img.data.len(), 4 * 2 * 3);
    assert_eq!(img.data, pixels);
}

#[test]
fn undecodable_bytes_are_rejected() {
    let r = Image::from_bytes(&[0u8, 1, 2, 3, 4]);
    match r {
        Ok(_) => panic!("junk bytes must not decode"),
        Err(e) => assert_eq!(e, DecodeError),
    }
    assert!(Image::from_bytes(&[]).is_err());
}
