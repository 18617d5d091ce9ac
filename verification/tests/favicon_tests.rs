use url_album::favicon::{favicon_start, favicon_step, Outcome, Step};
use url_album::net::is_valid_image;

fn get_url(s: &Step) -> String {
    match s {
        Step::Get(u) => u.clone(),
        _ => panic!("expected a download"),
    }
}

fn tiny_png() -> Vec<u8> {
    let img = image::RgbImage::from_pixel(1, 1, image::Rgb([1, 2, 3]));
    let mut out = Vec::new();
    image::DynamicImage::ImageRgb8(img)
        .write_to(&mut std::io::Cursor::new(&mut out), image::ImageFormat::Png)
        .unwrap();
    out
}

#[test]
fn non_web_addresses_get_no_icon() {
    let (f, s) = favicon_start("chrome://settings");
    assert!(f.is_none());
    assert!(matches!(s, Step::Finish(None)));
    let (f, _) = favicon_start("https://");
    assert!(f.is_none());
}

#[test]
fn cached_icon_is_used() {
    let (f, s) = favicon_start(" https://www.Example.com/page ");
    let mut f = f.unwrap();
    assert_eq!(f.domain, "example.com");
    assert_eq!(f.file_name, "example.com.png");
    assert_eq!(f.url, "https://www.Example.com/page");
    assert!(matches!(s, Step::ReadCache));
    let s = favicon_step(&mut f, Outcome::Cached(Some(tiny_png())));
    assert!(matches!(s, Step::Finish(Some(ref n)) if n == "example.com.png"));
}

#[test]
fn stale_cache_is_removed_then_fetched() {
    let (f, _) = favicon_start("http://a.org");
    let mut f = f.unwrap();
    let s = favicon_step(&mut f, Outcome::Cached(Some(b"GIF89a".to_vec())));
    assert!(matches!(s, Step::RemoveCache));
    let s = favicon_step(&mut f, Outcome::Removed);
    assert_eq!(get_url(&s), "https://a.org/favicon.ico");
}

#[test]
fn the_whole_order_of_attempts() {
    let (f, _) = favicon_start("https://www.Example.com/page");
    let mut f = f.unwrap();
    let s = favicon_step(&mut f, Outcome::Cached(None));
    assert_eq!(get_url(&s), "https://example.com/favicon.ico");
    let s = favicon_step(&mut f, Outcome::Got(None));
    assert_eq!(get_url(&s), "http://example.com/favicon.ico");
    let s = favicon_step(&mut f, Outcome::Got(Some(vec![0u8; 40])));
    assert_eq!(get_url(&s), "https://www.Example.com/page");
    let page = b"<html><head><link rel=\"icon\" type=\"image/svg+xml\" href=\"a.svg\"><LINK REL='shortcut icon' HREF=\"/i.png\"></head></html>".to_vec();
    let s = favicon_step(&mut f, Outcome::Got(Some(page)));
    assert_eq!(get_url(&s), "https://www.Example.com/i.png");
    let s = favicon_step(&mut f, Outcome::Got(Some(tiny_png())));
    match &s {
        Step::Save(bytes) => assert!(is_valid_image(bytes)),
        _ => panic!("expected a write"),
    }
    let s = favicon_step(&mut f, Outcome::Saved(false));
    assert_eq!(get_url(&s), "https://www.Example.com/a.svg");
    let s = favicon_step(&mut f, Outcome::Got(None));
    assert_eq!(get_url(&s), "https://icons.duckduckgo.com/ip3/example.com.ico");
    let s = favicon_step(&mut f, Outcome::Got(None));
    assert_eq!(get_url(&s), "https://www.google.com/s2/favicons?domain=example.com&sz=32");
    let s = favicon_step(&mut f, Outcome::Got(Some(vec![0u8; 68])));
    assert!(matches!(s, Step::Finish(None)));
}

#[test]
fn empty_pages_lead_to_the_next_page() {
    let (f, _) = favicon_start("https://site.net/x");
    let mut f = f.unwrap();
    favicon_step(&mut f, Outcome::Cached(None));
    favicon_step(&mut f, Outcome::Got(None));
    let s = favicon_step(&mut f, Outcome::Got(None));
    assert_eq!(get_url(&s), "https://site.net/x");
    let s = favicon_step(&mut f, Outcome::Got(Some(Vec::new())));
    assert_eq!(get_url(&s), "https://site.net/");
    let s = favicon_step(&mut f, Outcome::Got(Some(b"<p>no icons</p>".to_vec())));
    assert_eq!(get_url(&s), "https://icons.duckduckgo.com/ip3/site.net.ico");
    let s = favicon_step(&mut f, Outcome::Got(Some(tiny_png())));
    assert!(matches!(s, Step::Save(_)));
    let s = favicon_step(&mut f, Outcome::Saved(true));
    assert!(matches!(s, Step::Finish(Some(ref n)) if n == "site.net.png"));
}
