use std::io::Cursor;

use micromedia::thumbs::{
    align64, can_be_shrunk, encode_thumb, frame_picture, frame_plan, generate_image_thumbnail,
    generate_image_thumbnail_if_fits, image_dims, make_image_thumb, make_image_thumb_if_fits, probe_options, side_fits,
    sums_fit, thumb_filename, thumb_options, video_side, wait_for_file, wait_for_frame, ThumbError, Wait,
    EV_END_FILE, EV_FILE_LOADED, FILE_WAIT_SECS, FRAME_WAIT_SECS, EV_PLAYBACK_RESTART, EV_SHUTDOWN,
};

fn picture(width: u32, height: u32, format: image::ImageFormat) -> Vec<u8> {
    let mut img = image::RgbImage::new(width, height);
    for (x, y, p) in img.enumerate_pixels_mut() {
        *p = image::Rgb([x as u8, y as u8, 200]);
    }
    let mut out = Cursor::new(Vec::new());
    img.write_to(&mut out, format).unwrap();
    out.into_inner()
}

#[test]
fn thumbnails_fit_the_square_and_keep_proportions() {
    let jpeg = make_image_thumb(&picture(640, 320, image::ImageFormat::Png), "png", 320).unwrap();
    let img = image::load_from_memory_with_format(&jpeg, image::ImageFormat::Jpeg).unwrap();
    assert_eq!((img.width(), img.height()), (320, 160));
    assert_eq!(img.color(), image::ColorType::Rgb8);
}

#[test]
fn thumbnails_of_tall_narrow_and_small_images() {
    let cases = [((160, 640), (80, 320)), ((2000, 2), (320, 1)), ((3, 2), (320, 213)), ((7, 7), (320, 320))];
    for ((width, height), expected) in cases {
        let jpeg = make_image_thumb(&picture(width, height, image::ImageFormat::Png), "png", 320).unwrap();
        let img = image::load_from_memory_with_format(&jpeg, image::ImageFormat::Jpeg).unwrap();
        assert_eq!((img.width(), img.height()), expected);
    }
}

#[test]
fn thumbnails_go_by_the_extension() {
    let png = picture(8, 8, image::ImageFormat::Png);
    assert!(make_image_thumb(&png, "png", 320).is_ok());
    assert_eq!(make_image_thumb(&png, "bmp", 320), Err(ThumbError::Unreadable));
    assert_eq!(make_image_thumb(&png, "mp4", 320), Err(ThumbError::Unreadable));
}

#[test]
fn unreadable_and_unwritable_pictures_are_told_apart() {
    assert_eq!(make_image_thumb(&b"nothing".to_vec(), "png", 320), Err(ThumbError::Unreadable));
    assert_eq!(encode_thumb(None), Err(ThumbError::Unreadable));
    assert_eq!(encode_thumb(Some((70000, 1, vec![0; 210000]))), Err(ThumbError::Unwritable));
    assert!(encode_thumb(Some((1, 1, vec![1, 2, 3]))).is_ok());
}

#[test]
fn headers_give_the_dimensions() {
    let png = picture(31, 17, image::ImageFormat::Png);
    assert_eq!(image_dims(&png, "png"), Some((31, 17)));
    assert_eq!(image_dims(&png, "jpg"), None);
    assert_eq!(image_dims(&Vec::new(), "png"), None);
}

#[test]
fn image_thumbnails_carry_their_name() {
    let (name, jpeg) = generate_image_thumbnail(&picture(100, 50, image::ImageFormat::Bmp), "bmp", 42, 10).unwrap();
    assert_eq!(name, "42.jpg");
    let img = image::load_from_memory_with_format(&jpeg, image::ImageFormat::Jpeg).unwrap();
    assert_eq!((img.width(), img.height()), (10, 5));
    assert!(generate_image_thumbnail(&b"x".to_vec(), "bmp", 42, 10).is_none());
}

#[test]
fn names_of_thumbnails() {
    assert_eq!(thumb_filename(1), "1.jpg");
    assert_eq!(thumb_filename(-7), "-7.jpg");
    assert_eq!(thumb_filename(i64::MIN), "-9223372036854775808.jpg");
}

#[test]
fn squares_that_fit_into_memory() {
    assert!(side_fits(0) && side_fits(320) && side_fits(11585));
    assert!(!side_fits(u32::MAX));
}

#[test]
fn pixels_that_add_up() {
    let bytes = Some((3, 3));
    let words = Some((2, 1));
    assert!(sums_fit(None, None, 320));
    assert!(sums_fit(Some((57000, 2000)), words, 320));
    assert!(sums_fit(Some((2000, 57000)), words, 320));
    assert!(sums_fit(Some((80_000, 80_000)), words, 320));
    assert!(!sums_fit(Some((90_000, 90_000)), words, 320));
    assert!(sums_fit(Some((900_000, 900_000)), bytes, 320));
    assert!(!sums_fit(Some((900_000, 900_000)), words, 320));
    assert!(sums_fit(Some((256, 256)), words, 0));
    assert!(sums_fit(Some((256, 256)), words, 1));
    assert!(!sums_fit(Some((65537, 1)), words, 1));
    assert!(!sums_fit(Some((65537, 1)), None, 1));
    assert!(sums_fit(Some((65537, 1)), bytes, 1));
    assert!(sums_fit(Some((u32::MAX, 0)), words, 1));
    assert!(sums_fit(Some((0, 0)), words, 1));
}

#[test]
fn images_that_are_too_large() {
    let small = picture(300, 300, image::ImageFormat::Png);
    assert!(can_be_shrunk(&small, "png", 1));
    assert!(make_image_thumb_if_fits(&small, "png", 1).is_ok());
    assert_eq!(make_image_thumb_if_fits(&small, "png", 320), make_image_thumb(&small, "png", 320));
    assert_eq!(make_image_thumb_if_fits(&small, "png", u32::MAX), Err(ThumbError::TooLarge));
    assert_eq!(make_image_thumb_if_fits(&small, "bmp", 320), Err(ThumbError::Unreadable));

    let deep = image::ImageBuffer::<image::Rgb<u16>, Vec<u16>>::from_pixel(300, 300, image::Rgb([u16::MAX; 3]));
    let mut out = Cursor::new(Vec::new());
    image::DynamicImage::ImageRgb16(deep).write_to(&mut out, image::ImageFormat::Png).unwrap();
    let deep = out.into_inner();
    assert!(!can_be_shrunk(&deep, "png", 1));
    assert_eq!(make_image_thumb_if_fits(&deep, "png", 1), Err(ThumbError::TooLarge));
    assert_eq!(generate_image_thumbnail_if_fits(&deep, "png", 5, 1), Err(ThumbError::TooLarge));
    assert!(make_image_thumb_if_fits(&deep, "png", 320).is_ok());
    let made = generate_image_thumbnail_if_fits(&deep, "png", 5, 20).unwrap();
    assert_eq!(made, generate_image_thumbnail(&deep, "png", 5, 20));
    assert_eq!(made.unwrap().0, "5.jpg");
    assert_eq!(generate_image_thumbnail_if_fits(&b"x".to_vec(), "bmp", 5, 20), Ok(None));
}

#[test]
fn alignment() {
    assert_eq!((align64(0), align64(1), align64(64), align64(65), align64(1280)), (0, 64, 64, 128, 1280));
}

#[test]
fn frames_lose_their_fourth_byte() {
    let plan = frame_plan(2, 2).unwrap();
    assert_eq!((plan.stride, plan.len), (64, 128));
    let mut frame = vec![0u8; plan.len];
    frame[..8].copy_from_slice(&[1, 2, 3, 99, 4, 5, 6, 99]);
    frame[64..72].copy_from_slice(&[7, 8, 9, 99, 10, 11, 12, 99]);
    let jpeg = frame_picture(&frame, plan).to_jpeg().unwrap();
    let direct = encode_thumb(Some((2, 2, (1..=12).collect()))).unwrap();
    assert_eq!(jpeg, direct);
}

#[test]
fn frames_too_large_for_the_machine_have_no_plan() {
    assert!(frame_plan(u32::MAX, u32::MAX).is_none() || usize::BITS > 64);
    assert_eq!(frame_plan(0, 5).unwrap().len, 0);
}

#[test]
fn waiting_for_the_player() {
    assert_eq!((FRAME_WAIT_SECS, FILE_WAIT_SECS), (15, 10));
    assert_eq!(wait_for_frame(EV_PLAYBACK_RESTART), Wait::Ready);
    assert_eq!(wait_for_frame(EV_FILE_LOADED), Wait::Again);
    assert_eq!(wait_for_file(EV_FILE_LOADED), Wait::Ready);
    assert_eq!(wait_for_file(EV_PLAYBACK_RESTART), Wait::Again);
    for e in [EV_END_FILE, EV_SHUTDOWN] {
        assert_eq!(wait_for_frame(e), Wait::Over);
        assert_eq!(wait_for_file(e), Wait::Over);
    }
}

#[test]
fn sides_of_videos() {
    assert_eq!(video_side(Some(1920), 320), 1920);
    assert_eq!(video_side(Some(-3), 320), 1);
    assert_eq!(video_side(None, 320), 320);
    assert_eq!(video_side(None, 0), 1);
}

#[test]
fn options_of_the_headless_players() {
    let o = thumb_options(20);
    assert_eq!(o.len(), 8);
    assert_eq!(o[0], ("vo".to_string(), "libmpv".to_string()));
    assert_eq!(o[7], ("start".to_string(), "20%".to_string()));
    let p = probe_options();
    assert_eq!(p[0], ("vo".to_string(), "null".to_string()));
    assert_eq!(p[4], ("pause".to_string(), "yes".to_string()));
}
