use mangatan_ocr_server::logic::{Band, PipelineError};
use mangatan_ocr_server::picture::{
    band_images, band_pictures, encoded, is_avif, load_picture, picture_from, picture_from_avif,
    AvifSamples, BandImage, Picture,
};

fn gradient(width: u32, height: u32) -> Picture {
    let mut pixels = Vec::new();
    for y in 0..height {
        for x in 0..width {
            pixels.push((x % 256) as u8);
            pixels.push((y % 256) as u8);
            pixels.push(((x + y) % 256) as u8);
            pixels.push(255);
        }
    }
    Picture { width, height, pixels }
}

#[test]
fn crop_takes_the_rows_of_the_band() {
    let picture = gradient(3, 5);
    let part = picture.crop(Band { y: 1, height: 2 });
    assert_eq!(part.width, 3);
    assert_eq!(part.height, 2);
    assert_eq!(part.pixels, picture.pixels[12..36].to_vec());
    let none = picture.crop(Band { y: 5, height: 0 });
    assert_eq!(none, Picture { width: 3, height: 0, pixels: vec![] });
    assert_eq!(picture.crop(Band { y: 0, height: 5 }), picture);
}

#[test]
fn validity_counts_four_bytes_a_pixel() {
    assert!(gradient(4, 4).check_valid());
    assert!(Picture { width: 0, height: 9, pixels: vec![] }.check_valid());
    assert!(!Picture { width: 1, height: 1, pixels: vec![1, 2, 3] }.check_valid());
    assert!(!Picture { width: u32::MAX, height: u32::MAX, pixels: vec![] }.check_valid());
}

#[test]
fn a_picture_survives_png() {
    let picture = gradient(7, 3);
    let images = band_images(&picture).unwrap();
    assert_eq!(images.len(), 1);
    assert_eq!(images[0].band, Band { y: 0, height: 3 });
    assert_eq!(&images[0].png[..8], &[0x89, b'P', b'N', b'G', 0x0D, 0x0A, 0x1A, 0x0A]);
    assert!(!is_avif(&images[0].png));
    assert_eq!(load_picture(&images[0].png), Ok(picture));
}

#[test]
fn a_tall_picture_is_cut_into_bands() {
    let picture = gradient(2, 6500);
    let images = band_images(&picture).unwrap();
    assert_eq!(images.len(), 3);
    assert_eq!(images[1].band, Band { y: 3000, height: 3000 });
    assert_eq!(images[2].band, Band { y: 6000, height: 500 });
    let last = load_picture(&images[2].png).unwrap();
    assert_eq!(last, picture.crop(Band { y: 6000, height: 500 }));
    assert_eq!(band_images(&gradient(5, 0)), Ok(vec![]));
}

#[test]
fn what_is_no_image_is_not_decoded() {
    assert!(matches!(load_picture(b"not an image"), Err(PipelineError::Decode(_))));
    assert!(matches!(load_picture(&[]), Err(PipelineError::Decode(_))));
    assert_eq!(
        picture_from(Err("broken".to_string())),
        Err(PipelineError::Decode("broken".to_string()))
    );
    assert!(matches!(picture_from(Ok((2, 2, vec![0; 15]))), Err(PipelineError::Decode(_))));
    assert_eq!(
        picture_from(Ok((1, 1, vec![1, 2, 3, 4]))),
        Ok(Picture { width: 1, height: 1, pixels: vec![1, 2, 3, 4] })
    );
}

#[test]
fn avif_is_told_by_its_first_bytes() {
    let mut head = vec![0, 0, 0, 0x1C];
    head.extend_from_slice(b"ftypavif");
    head.extend_from_slice(&[0; 16]);
    assert!(is_avif(&head));
    assert!(!is_avif(b"\x89PNG\r\n\x1a\n"));
    assert!(!is_avif(&[]));
    // The third and fourth byte are free, but for those of an icon file.
    let mut any_size = head.clone();
    any_size[2] = 0xAB;
    any_size[3] = 0xCD;
    assert!(is_avif(&any_size));
    let mut icon = head.clone();
    icon[2] = 1;
    icon[3] = 0;
    assert!(!is_avif(&icon));
    let mut one_one = head.clone();
    one_one[2] = 1;
    one_one[3] = 1;
    assert!(is_avif(&one_one));
    // Twelve bytes are enough, eleven are not.
    assert!(is_avif(&head[..12]));
    assert!(!is_avif(&head[..11]));
    let mut first = head.clone();
    first[0] = 1;
    assert!(!is_avif(&first));
    let mut second = head.clone();
    second[1] = 1;
    assert!(!is_avif(&second));
    for at in 4..12 {
        let mut other = head.clone();
        other[at] ^= 1;
        assert!(!is_avif(&other));
    }
}

#[test]
fn a_picture_without_columns_has_no_png() {
    let flat = Picture { width: 0, height: 3, pixels: vec![] };
    assert!(flat.check_valid());
    assert!(matches!(band_images(&flat), Err(PipelineError::Decode(_))));
}

#[test]
fn the_same_picture_gives_the_same_file() {
    let picture = gradient(9, 4);
    let once = band_images(&picture).unwrap();
    let twice = band_images(&gradient(9, 4)).unwrap();
    assert_eq!(once, twice);
    let other = band_images(&gradient(4, 9)).unwrap();
    assert_ne!(once[0].png, other[0].png);
}

#[test]
fn avif_samples_become_opaque_eight_bit_pixels() {
    assert_eq!(
        picture_from_avif(2, 1, AvifSamples::Rgb8(vec![1, 2, 3, 4, 5, 6])),
        Some(Picture { width: 2, height: 1, pixels: vec![1, 2, 3, 255, 4, 5, 6, 255] })
    );
    assert_eq!(
        picture_from_avif(1, 1, AvifSamples::Rgba8(vec![1, 2, 3, 4])),
        Some(Picture { width: 1, height: 1, pixels: vec![1, 2, 3, 4] })
    );
    assert_eq!(
        picture_from_avif(1, 2, AvifSamples::Rgb16(vec![0x0100, 0x02FF, 0xFFFF, 0, 0x00FF, 0x8000])),
        Some(Picture { width: 1, height: 2, pixels: vec![1, 2, 255, 255, 0, 0, 0x80, 255] })
    );
    assert_eq!(
        picture_from_avif(1, 1, AvifSamples::Rgba16(vec![0x1234, 0x5678, 0x9ABC, 0xDEF0])),
        Some(Picture { width: 1, height: 1, pixels: vec![0x12, 0x56, 0x9A, 0xDE] })
    );
    assert_eq!(picture_from_avif(2, 2, AvifSamples::Rgb8(vec![1, 2, 3])), None);
    assert_eq!(picture_from_avif(1, 1, AvifSamples::Rgba16(vec![1, 2, 3])), None);
    assert_eq!(
        picture_from_avif(0, 5, AvifSamples::Rgb16(vec![])),
        Some(Picture { width: 0, height: 5, pixels: vec![] })
    );
}

#[test]
fn bands_of_a_picture_are_its_rows() {
    let picture = gradient(2, 6500);
    let parts = band_pictures(&picture);
    assert_eq!(parts.len(), 3);
    assert_eq!(parts[0].0, Band { y: 0, height: 3000 });
    assert_eq!(parts[2].0, Band { y: 6000, height: 500 });
    assert_eq!(parts[1].1.pixels, picture.pixels[24000..48000].to_vec());
    assert_eq!(parts[2].1, picture.crop(Band { y: 6000, height: 500 }));
}

#[test]
fn the_encoder_decides_what_becomes_of_a_band() {
    let band = Band { y: 3000, height: 10 };
    assert_eq!(encoded(band, Ok(vec![1, 2, 3])), Ok(BandImage { band, png: vec![1, 2, 3] }));
    assert_eq!(
        encoded(band, Err("disk".to_string())),
        Err(PipelineError::Decode("disk".to_string()))
    );
}
