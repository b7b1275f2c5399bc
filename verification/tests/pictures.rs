use album_metadata::picture::{cover_from, cover_of, JPEG_QUALITY};

fn jpeg_of(picture: &image::DynamicImage, quality: u8) -> Vec<u8> {
    let mut out = std::io::Cursor::new(Vec::new());
    picture.write_to(&mut out, image::ImageOutputFormat::Jpeg(quality)).unwrap();
    out.into_inner()
}

fn shaded(width: u32, height: u32) -> image::DynamicImage {
    let mut picture = image::RgbImage::new(width, height);
    for (x, y, pixel) in picture.enumerate_pixels_mut() {
        *pixel = image::Rgb([(x * 16) as u8, (y * 16) as u8, ((x + y) * 8) as u8]);
    }
    image::DynamicImage::ImageRgb8(picture)
}

#[test]
fn cover_has_the_size_of_the_picture() {
    let cover = cover_from(&shaded(17, 9));
    assert_eq!((cover.width, cover.height), (17, 9));
    let cover = cover_from(&shaded(1, 3));
    assert_eq!((cover.width, cover.height), (1, 3));
}

#[test]
fn cover_holds_the_picture_as_a_jpeg_file() {
    let cover = cover_from(&shaded(3, 2));
    let jpeg = cover.jpeg.unwrap();
    assert_eq!(&jpeg[..3], &[0xff, 0xd8, 0xff]);
    assert_eq!(image::guess_format(&jpeg).unwrap(), image::ImageFormat::Jpeg);
    let again = image::load_from_memory(&jpeg).unwrap();
    assert_eq!((again.width(), again.height()), (3, 2));
}

#[test]
fn quality_of_the_written_picture_is_ninety() {
    assert_eq!(JPEG_QUALITY, 90);
    let picture = shaded(16, 16);
    let cover = cover_from(&picture);
    assert_eq!(cover.jpeg, Some(jpeg_of(&picture, 90)));
    assert_ne!(cover.jpeg, Some(jpeg_of(&picture, 10)));
    assert_ne!(cover.jpeg, Some(jpeg_of(&picture, 89)));
}

#[test]
fn covers_of_different_pictures_differ() {
    let one = cover_from(&shaded(16, 16));
    let other = cover_from(&image::DynamicImage::ImageRgb8(image::RgbImage::from_pixel(
        16,
        16,
        image::Rgb([200, 30, 30]),
    )));
    assert_ne!(one.jpeg, other.jpeg);
}

#[test]
fn picture_of_sixteen_bit_samples_has_a_size_and_no_jpeg() {
    let picture = image::ImageBuffer::<image::Rgb<u16>, Vec<u16>>::from_pixel(
        2,
        5,
        image::Rgb([60000, 1, 1]),
    );
    let cover = cover_from(&image::DynamicImage::ImageRgb16(picture));
    assert_eq!((cover.width, cover.height), (2, 5));
    assert_eq!(cover.jpeg, None);
}

#[test]
fn grey_picture_is_written_too() {
    let picture = image::GrayImage::from_pixel(4, 4, image::Luma([128]));
    let picture = image::DynamicImage::ImageLuma8(picture);
    let cover = cover_from(&picture);
    assert_eq!((cover.width, cover.height), (4, 4));
    assert_eq!(cover.jpeg, Some(jpeg_of(&picture, 90)));
}

#[test]
fn cover_holds_what_it_is_given() {
    let cover = cover_of(640, 480, Some(vec![1, 2, 3]));
    assert_eq!(cover.width, 640);
    assert_eq!(cover.height, 480);
    assert_eq!(cover.jpeg, Some(vec![1, 2, 3]));
    assert_eq!(cover_of(1, 2, None).jpeg, None);
}

#[test]
fn pictures_of_every_kind_give_a_cover() {
    let sides = [(0, 0), (0, 3), (3, 0), (1, 1), (7, 9), (8, 8), (33, 17)];
    for (width, height) in sides {
        let pictures = vec![
            image::DynamicImage::new_luma8(width, height),
            image::DynamicImage::new_luma_a8(width, height),
            image::DynamicImage::new_rgb8(width, height),
            image::DynamicImage::new_rgba8(width, height),
            image::DynamicImage::new_luma16(width, height),
            image::DynamicImage::new_luma_a16(width, height),
            image::DynamicImage::new_rgb16(width, height),
            image::DynamicImage::new_rgba16(width, height),
            image::DynamicImage::new_rgb32f(width, height),
            image::DynamicImage::new_rgba32f(width, height),
        ];
        for picture in pictures {
            let cover = cover_from(&picture);
            assert_eq!((cover.width, cover.height), (width, height));
            let mut out = std::io::Cursor::new(Vec::new());
            let written = picture
                .write_to(&mut out, image::ImageOutputFormat::Jpeg(90))
                .ok()
                .map(|_| out.into_inner());
            assert_eq!(cover.jpeg, written);
        }
    }
}
