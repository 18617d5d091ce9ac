use url_album::icons::find_icon_links;
use url_album::net::{
    check_outcome, extract_domain, google_icon_usable, is_valid_image, prepare_image, sanitize_domain, LinkReply,
};

#[test]
fn domains() {
    assert_eq!(extract_domain("https://www.Example.COM:8080/path?q=1"), Some("example.com".to_string()));
    assert_eq!(extract_domain("  http://www.www.site.org/  "), Some("site.org".to_string()));
    assert_eq!(extract_domain("example.net/page"), Some("example.net".to_string()));
    assert_eq!(extract_domain("http://"), None);
    assert_eq!(extract_domain("   "), None);
    assert_eq!(extract_domain("https://www./x"), None);
    assert_eq!(extract_domain("ftp://ПРИМЕР.рф/"), Some("пример.рф".to_string()));
}

#[test]
fn file_names_from_hosts() {
    assert_eq!(sanitize_domain("example.com"), "example.com");
    assert_eq!(sanitize_domain("a b/c:d-e"), "a_b_c_d-e");
    assert_eq!(sanitize_domain("пример.рф"), "______.__");
    assert_eq!(sanitize_domain(""), "");
}

#[test]
fn png_check() {
    assert!(is_valid_image(&[0x89, 0x50, 0x4E, 0x47, 0x0D, 0x0A]));
    assert!(!is_valid_image(&[0x89, 0x50, 0x4E]));
    assert!(!is_valid_image(b"GIF89a"));
}

fn tiny_png() -> Vec<u8> {
    let img = image::RgbImage::from_pixel(2, 2, image::Rgb([10, 20, 30]));
    let mut out = Vec::new();
    image::DynamicImage::ImageRgb8(img)
        .write_to(&mut std::io::Cursor::new(&mut out), image::ImageFormat::Png)
        .unwrap();
    out
}

#[test]
fn icons_are_stored_as_png() {
    let png = tiny_png();
    let stored = prepare_image(png.clone()).expect("a PNG is kept");
    assert!(is_valid_image(&stored));
    let back = image::load_from_memory(&stored).unwrap();
    assert_eq!(back.width(), 2);
    assert_eq!(prepare_image(b"<svg xmlns=\"x\"></svg>".to_vec()), None);
    assert_eq!(prepare_image(b"<?xml version=\"1.0\"?>".to_vec()), None);
    assert_eq!(prepare_image(vec![1, 2, 3]), None);
    assert_eq!(prepare_image(vec![0u8; 64]), None);
}

#[test]
fn link_verdicts() {
    assert_eq!(check_outcome(LinkReply::Status(200)), (true, "200".to_string()));
    assert_eq!(check_outcome(LinkReply::Status(399)), (true, "399".to_string()));
    assert_eq!(check_outcome(LinkReply::Status(404)), (false, "404".to_string()));
    assert_eq!(
        check_outcome(LinkReply::Failure("Network Error: connection timed out".to_string())),
        (false, "Таймаут".to_string())
    );
    assert_eq!(check_outcome(LinkReply::Failure("read timeout".to_string())), (false, "Таймаут".to_string()));
    assert_eq!(
        check_outcome(LinkReply::Failure("Connection Failed: connect error".to_string())),
        (false, "Нет соединения".to_string())
    );
    assert_eq!(check_outcome(LinkReply::Failure("Dns Failed".to_string())), (false, "Dns Failed".to_string()));
}

#[test]
fn google_placeholder() {
    assert!(!google_icon_usable(68));
    assert!(google_icon_usable(69));
}

#[test]
fn icon_links_of_a_page() {
    let html = "<head><LINK REL=\"ICON\" HREF=\"/a.png\"><link rel='shortcut icon' href='b.svg'>\
                <link rel=\"apple-touch-icon\" href=\"https://c.example/t.png\"></head>";
    assert_eq!(
        find_icon_links(html, "https://site.example/page/"),
        vec![
            "https://site.example/a.png".to_string(),
            "https://c.example/t.png".to_string(),
            "https://site.example/page/b.svg".to_string(),
        ]
    );
    assert_eq!(find_icon_links("<p>no icons</p>", "https://site.example"), Vec::<String>::new());
}

#[test]
fn icon_links_after_text_that_changes_length_when_lowercased() {
    // `İ` becomes one byte longer when lower-cased; the links are still found whole.
    let html = "<title>İİİ</title><link rel=\"icon\" href=\"/f.ico\"><link rel=\"icon\" type=\"image/svg+xml\" href=\"/g\">";
    assert_eq!(
        find_icon_links(html, "https://site.example"),
        vec!["https://site.example/f.ico".to_string(), "https://site.example/g".to_string()]
    );
}
