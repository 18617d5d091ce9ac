use std::collections::HashMap;
use url_album::album::SortBy;
use url_album::bookmarks::{DbBookmark, DbFolder};
use url_album::panel::{bookmark_ids_ordered, bookmark_rows, bytes_lt, right_panel_rows, stable_sort_indices};
use url_album::settings::{parse_i32, parse_i64, parse_settings, settings_json, Settings};

#[test]
fn whole_numbers() {
    assert_eq!(parse_i64("42"), Some(42));
    assert_eq!(parse_i64("-7"), Some(-7));
    assert_eq!(parse_i64("+7"), Some(7));
    assert_eq!(parse_i64("-"), None);
    assert_eq!(parse_i64(""), None);
    assert_eq!(parse_i64("1 2"), None);
    assert_eq!(parse_i64("9223372036854775807"), Some(i64::MAX));
    assert_eq!(parse_i64("-9223372036854775808"), Some(i64::MIN));
    assert_eq!(parse_i64("9223372036854775808"), None);
    assert_eq!(parse_i64("99999999999999999999999999"), None);
    assert_eq!(parse_i32("2147483647"), Some(i32::MAX));
    assert_eq!(parse_i32("2147483648"), None);
}

#[test]
fn settings_text_is_read_key_by_key() {
    let s = parse_settings("{\"tree_width\":250.5,\"col_name_width\":900,\"confirm_delete\":0,\"no_dup_urls\": true,\"dark_theme\":1,\"show_toolbar\":0,\"accordion\":1,\"expanded\":\"3,x,-4,5\",\"active_folder\":12}");
    assert_eq!(s.col_name_width, 700);
    assert!(!s.confirm_delete);
    assert!(s.no_dup_urls);
    assert!(s.dark_theme);
    assert!(!s.show_toolbar);
    assert!(s.accordion);
    assert_eq!(s.expanded, vec![3, -4, 5]);
    assert_eq!(s.active_folder, Some(12));
    let d = parse_settings("");
    assert_eq!(d.col_name_width, 240);
    assert!(d.confirm_delete && !d.no_dup_urls && !d.dark_theme && d.show_toolbar && !d.accordion);
    assert!(d.expanded.is_empty());
    assert_eq!(d.active_folder, None);
    let e = parse_settings("\"col_name_width\":10,\"active_folder\":-3");
    assert_eq!(e.col_name_width, 80);
    assert_eq!(e.active_folder, None);
}

#[test]
fn settings_written_and_read_back() {
    let st = Settings {
        col_name_width: 300,
        confirm_delete: false,
        no_dup_urls: true,
        dark_theme: false,
        show_toolbar: true,
        accordion: true,
        expanded: vec![1, 22, 333],
        active_folder: Some(22),
    };
    let text = settings_json("240", &st);
    assert_eq!(
        text,
        "{\"tree_width\":240,\"col_name_width\":300,\"confirm_delete\":0,\"no_dup_urls\":1,\"dark_theme\":0,\"show_toolbar\":1,\"accordion\":1,\"expanded\":\"1,22,333\",\"active_folder\":22}"
    );
    let back = parse_settings(&text);
    assert_eq!(back.col_name_width, 300);
    assert_eq!(back.expanded, vec![1, 22, 333]);
    assert_eq!(back.active_folder, Some(22));
    assert!(!back.confirm_delete && back.no_dup_urls && back.accordion);
    assert!(!back.dark_theme && back.show_toolbar);
}

#[test]
fn settings_read_back_outside_the_law() {
    let st = Settings {
        col_name_width: 50,
        confirm_delete: true,
        no_dup_urls: false,
        dark_theme: true,
        show_toolbar: false,
        accordion: false,
        expanded: vec![-7, i64::MIN, 0],
        active_folder: Some(0),
    };
    let back = parse_settings(&settings_json("312.25", &st));
    // The width is kept within range and a folder id of 0 means none.
    assert_eq!(back.col_name_width, 80);
    assert_eq!(back.active_folder, None);
    assert_eq!(back.expanded, vec![-7, i64::MIN, 0]);
    assert!(back.confirm_delete && back.dark_theme && !back.show_toolbar);
}

fn bm(id: i64, title: &str, url: Option<&str>) -> DbBookmark {
    DbBookmark { id, title: title.to_string(), url: url.map(|s| s.to_string()), note: None, created: None, thumb: None }
}

#[test]
fn byte_order() {
    assert!(bytes_lt(b"abc", b"abd"));
    assert!(bytes_lt(b"ab", b"abc"));
    assert!(!bytes_lt(b"abc", b"abc"));
    assert!(!bytes_lt(b"b", b"abc"));
    let keys = vec![b"b".to_vec(), b"a".to_vec(), b"b".to_vec(), b"c".to_vec()];
    assert_eq!(stable_sort_indices(&keys, true), vec![1, 0, 2, 3]);
    assert_eq!(stable_sort_indices(&keys, false), vec![3, 0, 2, 1]);
}

#[test]
fn list_rows() {
    let fs = vec![
        DbFolder { id: 2, parent_id: Some(1), title: "Sub".to_string() },
        DbFolder { id: 3, parent_id: None, title: "Top".to_string() },
    ];
    let mut counts = HashMap::new();
    counts.insert(2, 5);
    let bms = vec![bm(10, "beta", Some("http://z")), bm(11, "Alpha", None), bm(12, "alpha", Some("http://a"))];
    let mut checks = HashMap::new();
    checks.insert(12, (false, "404".to_string()));
    checks.insert(10, (true, "200".to_string()));
    let rows = right_panel_rows(false, Some(1), &fs, &counts, &bms, SortBy::Title, true, &checks, Some(12));
    let shown: Vec<(i32, i32, String, String, i32, bool)> =
        rows.iter().map(|r| (r.id, r.kind, r.title.clone(), r.check_status.clone(), r.count, r.selected)).collect();
    assert_eq!(
        shown,
        vec![
            (2, 0, "Sub".to_string(), String::new(), 5, false),
            (11, 1, "Alpha".to_string(), String::new(), 0, false),
            (12, 1, "alpha".to_string(), "404".to_string(), 0, true),
            (10, 1, "beta".to_string(), "OK".to_string(), 0, false),
        ]
    );
    let by_url = right_panel_rows(true, None, &fs, &counts, &bms, SortBy::Url, false, &checks, None);
    let ids: Vec<i32> = by_url.iter().map(|r| r.id).collect();
    assert_eq!(ids, vec![10, 12, 11]);
    assert!(right_panel_rows(false, None, &fs, &counts, &bms, SortBy::Title, true, &checks, None).is_empty());
    assert_eq!(bookmark_rows(&bms, &checks, None).len(), 3);
}

#[test]
fn arrow_key_order() {
    let bms = vec![bm(1, "b", None), bm(2, "a", None), bm(3, "B", None)];
    assert_eq!(bookmark_ids_ordered(&bms, SortBy::Title, true), vec![2, 1, 3]);
    // Descending order reverses the ascending one, ties included.
    assert_eq!(bookmark_ids_ordered(&bms, SortBy::Title, false), vec![3, 1, 2]);
}
