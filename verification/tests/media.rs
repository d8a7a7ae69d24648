use micromedia::media::{classify, MediaType};

#[test]
fn extensions_tell_kinds_apart() {
    assert_eq!(classify("png"), Some(MediaType::Image));
    assert_eq!(classify("mkv"), Some(MediaType::Video));
    assert_eq!(classify("txt"), None);
    assert_eq!(classify("PNG"), None);
}
