use std::collections::{HashMap, HashSet};
use url_album::album::{
    add_first_new, add_if_new, browser_letter_color, build_tree_rows, check_status_text, choose_places,
    chromium_bookmark_paths, chromium_candidates, collect_tree_order, created_display, dedup_by_domain,
    delete_prompt, detail_texts, drop_allowed, drop_target, favicon_progress, first_existing,
    gecko_places_candidates, is_duplicate_url, location_text, nav_position, normalize_url, picked_file_is_firefox,
    recent_file_text, recent_list, recent_with, search_pattern, sort_label, sort_toggle, status_text, DetectedBrowser, SortBy,
    TreeContext,
};
use url_album::bookmarks::{DbBookmark, DbFolder};
use url_album::text::SliceFault;

fn bm(id: i64, title: &str, url: Option<&str>) -> DbBookmark {
    DbBookmark { id, title: title.to_string(), url: url.map(|s| s.to_string()), note: None, created: None, thumb: None }
}

fn folder(id: i64, parent: Option<i64>, title: &str) -> DbFolder {
    DbFolder { id, parent_id: parent, title: title.to_string() }
}

#[test]
fn links_to_open() {
    assert_eq!(normalize_url("  example.com "), "https://example.com");
    assert_eq!(normalize_url("http://a.b"), "http://a.b");
    assert_eq!(normalize_url("mailto:me@x.org"), "mailto:me@x.org");
    assert_eq!(normalize_url("ftp://files"), "ftp://files");
    assert_eq!(normalize_url("   "), "");
    for u in ["  example.com ", "http://a.b", "mailto:x", "\u{3000}a b\t", "", "x:/y"] {
        let once = normalize_url(u);
        assert_eq!(normalize_url(&once), once);
    }
}

#[test]
fn chromium_paths_in_order() {
    assert_eq!(
        chromium_bookmark_paths("C:\\L", "Google\\Chrome"),
        vec![
            "C:\\L\\Google\\Chrome\\User Data\\Default\\Bookmarks",
            "C:\\L\\Google\\Chrome\\Default\\Bookmarks",
            "C:\\L\\Google\\Chrome\\Bookmarks",
        ]
    );
    let all = chromium_candidates("L", "P", "Q", "Vivaldi");
    assert_eq!(all.len(), 9);
    assert_eq!(all[3], "P\\Vivaldi\\User Data\\Default\\Bookmarks");
    assert_eq!(all[8], "Q\\Vivaldi\\Bookmarks");
}

#[test]
fn browser_badges() {
    assert_eq!(browser_letter_color("Mozilla Firefox", "firefox"), ("?".to_string(), (136, 136, 136)));
    assert_eq!(browser_letter_color("Google Chrome", "chromium"), ("C".to_string(), (26, 115, 232)));
    assert_eq!(browser_letter_color("Microsoft Edge", "chromium"), ("E".to_string(), (0, 120, 212)));
    assert_eq!(browser_letter_color("Opera GX Stable", "chromium"), ("O".to_string(), (255, 27, 45)));
    assert_eq!(browser_letter_color("Brave", "chromium"), ("B".to_string(), (251, 84, 43)));
    assert_eq!(browser_letter_color("Vivaldi", "chromium"), ("V".to_string(), (239, 57, 57)));
    assert_eq!(browser_letter_color("yandex", "chromium"), ("Y".to_string(), (85, 85, 85)));
    assert_eq!(browser_letter_color("", "chromium"), ("?".to_string(), (85, 85, 85)));
}

#[test]
fn picked_files() {
    assert!(picked_file_is_firefox("places.sqlite"));
    assert!(picked_file_is_firefox("backup.sqlite"));
    assert!(!picked_file_is_firefox("bookmarks"));
    assert!(!picked_file_is_firefox("x.json"));
}

#[test]
fn recent_databases() {
    let list = vec!["a.db".to_string(), "b.db".to_string(), "c.db".to_string()];
    assert_eq!(recent_with(list, "b.db"), vec!["b.db", "a.db", "c.db"]);
    let long: Vec<String> = (0..12).map(|i| format!("{i}.db")).collect();
    let r = recent_with(long, "new.db");
    assert_eq!(r.len(), 10);
    assert_eq!(r[0], "new.db");
    assert_eq!(r[9], "8.db");
    assert_eq!(recent_with(r.clone(), "new.db"), r);
    assert_eq!(recent_list("a.db\n\nb.db\r\n"), vec!["a.db", "b.db"]);
    let paths = vec!["C:\\x\\a.db".to_string(), "b.db".to_string(), "c.db\r".to_string()];
    assert_eq!(recent_file_text(&paths), "C:\\x\\a.db\nb.db\nc.db\r");
    assert_eq!(recent_list(&recent_file_text(&paths)), paths);
    assert_eq!(recent_file_text(&vec![]), "");
}

#[test]
fn sorting_and_navigation() {
    assert_eq!(sort_toggle(SortBy::Title, true), (SortBy::Title, false));
    assert_eq!(sort_toggle(SortBy::Title, false), (SortBy::Url, true));
    assert_eq!(sort_toggle(SortBy::Url, true), (SortBy::Url, false));
    assert_eq!(sort_toggle(SortBy::Url, false), (SortBy::Title, true));
    assert_eq!(sort_label(SortBy::Title, true), "Название ↑");
    assert_eq!(sort_label(SortBy::Url, false), "URL ↓");
    let ids = vec![5, 6, 7];
    assert_eq!(nav_position(&ids, None, 1), Some(0));
    assert_eq!(nav_position(&ids, Some(6), 1), Some(2));
    assert_eq!(nav_position(&ids, Some(7), 1), Some(0));
    assert_eq!(nav_position(&ids, Some(5), -1), Some(2));
    assert_eq!(nav_position(&ids, Some(99), -1), Some(0));
    assert_eq!(nav_position(&Vec::new(), Some(1), 1), None);
}

#[test]
fn window_texts() {
    assert_eq!(created_display("2024-05-01 12:30:00"), Ok("2024-05-01".to_string()));
    assert_eq!(created_display("2024"), Ok("2024".to_string()));
    assert_eq!(created_display("дата-время"), Err(SliceFault));
    assert_eq!(check_status_text(Some(&(true, "200".to_string()))), "OK");
    assert_eq!(check_status_text(Some(&(false, "404".to_string()))), "404");
    assert_eq!(check_status_text(None), "");
    assert_eq!(status_text(true, 3, 10, "album.db"), "Найдено: 3  |  База: album.db");
    assert_eq!(status_text(false, 0, 10, "album.db"), "Записей: 10  |  База: album.db");
    assert_eq!(location_text("rust", Some("A › B")), "Поиск: rust");
    assert_eq!(location_text("", Some("A › B")), "A › B");
    assert_eq!(location_text("", None), "");
    assert_eq!(favicon_progress(3, 5, false), (3, "Favicon: 3 / 5".to_string(), false));
    assert_eq!(favicon_progress(9, 5, false), (5, "Favicon: 5 / 5".to_string(), true));
    assert_eq!(favicon_progress(1, 5, true).2, true);
    assert_eq!(search_pattern("RuSt"), "%rust%");
    assert_eq!(delete_prompt(true, Some("Docs")), "Удалить ссылку «Docs»?");
    assert_eq!(delete_prompt(true, None), "Удалить ссылку?");
    assert_eq!(delete_prompt(false, Some("F")), "Удалить папку «F» и всё содержимое?");
    assert_eq!(delete_prompt(false, None), "Удалить папку?");
}

#[test]
fn detail_pane() {
    let mut b = bm(1, "T", Some("http://u"));
    b.note = Some("n".to_string());
    b.created = Some("2023-01-02 03:04:05".to_string());
    assert_eq!(
        detail_texts(&b),
        Ok(("T".to_string(), "http://u".to_string(), "n".to_string(), "2023-01-02".to_string()))
    );
    let c = bm(2, "X", None);
    assert_eq!(detail_texts(&c), Ok(("X".to_string(), String::new(), String::new(), String::new())));
}

#[test]
fn duplicates_and_drops() {
    let existing = vec![bm(1, "a", Some("http://a")), bm(2, "b", None)];
    assert!(is_duplicate_url(&existing, "http://a"));
    assert!(!is_duplicate_url(&existing, "http://b"));
    let order = vec![(10, 0), (11, 1), (12, 0)];
    assert_eq!(drop_target(&order, 0), 10);
    assert_eq!(drop_target(&order, 1), 0);
    assert_eq!(drop_target(&order, 5), 0);
    assert!(drop_allowed(3, 4));
    assert!(!drop_allowed(3, 3));
    assert!(!drop_allowed(0, 4));
}

#[test]
fn visible_tree() {
    let fs = vec![folder(1, None, "A"), folder(2, Some(1), "A1"), folder(3, None, "B"), folder(4, Some(2), "A1x")];
    let mut expanded = HashSet::new();
    expanded.insert(1);
    assert_eq!(collect_tree_order(&fs, &expanded), vec![(1, 0), (2, 0), (3, 0)]);
    expanded.insert(2);
    assert_eq!(collect_tree_order(&fs, &expanded), vec![(1, 0), (2, 0), (4, 0), (3, 0)]);
    // A cycle is walked no deeper than the number of folders.
    let cyc = vec![folder(5, Some(6), "x"), folder(6, Some(5), "y"), folder(7, None, "r")];
    let mut all: HashSet<i64> = HashSet::new();
    all.insert(5);
    all.insert(6);
    assert_eq!(collect_tree_order(&cyc, &all), vec![(7, 0)]);
}

#[test]
fn tree_rows_with_leaves() {
    let fs = vec![folder(1, None, "A"), folder(2, Some(1), "A1"), folder(3, None, "B")];
    let mut expanded = HashSet::new();
    expanded.insert(1);
    let mut counts = HashMap::new();
    counts.insert(3, 4);
    let mut leaves = HashMap::new();
    leaves.insert(1, vec![bm(100, "leaf", Some("http://l"))]);
    let cx = TreeContext { expanded, active: Some(3), selected: None, counts, leaves };
    let rows = build_tree_rows(&fs, &cx);
    let shown: Vec<(i32, i32, String, i32, bool, bool, bool, i32)> = rows
        .iter()
        .map(|r| (r.id, r.kind, r.title.clone(), r.depth, r.expanded, r.has_children, r.selected, r.count))
        .collect();
    assert_eq!(
        shown,
        vec![
            (1, 0, "A".to_string(), 0, true, true, false, 0),
            (2, 0, "A1".to_string(), 1, false, false, false, 0),
            (100, 1, "leaf".to_string(), 1, false, false, false, 0),
            (3, 0, "B".to_string(), 0, false, true, true, 4),
        ]
    );
    assert_eq!(rows[2].url, "http://l");
}

#[test]
fn favicon_jobs_group_by_host() {
    let bms = vec![
        bm(1, "a", Some("https://www.a.com/x")),
        bm(2, "b", Some("http://b.org")),
        bm(3, "a2", Some("https://a.com/y")),
        bm(4, "none", None),
        bm(5, "blank", Some("  ")),
    ];
    let jobs = dedup_by_domain(bms);
    let shown: Vec<(i64, Vec<i64>)> = jobs.iter().map(|(b, ids)| (b.id, ids.clone())).collect();
    assert_eq!(shown, vec![(1, vec![1, 3]), (2, vec![2]), (4, vec![4]), (5, vec![5])]);
    let mut all: Vec<i64> = jobs.iter().flat_map(|(_, ids)| ids.iter().copied()).collect();
    all.sort();
    assert_eq!(all, vec![1, 2, 3, 4, 5]);
}

#[test]
fn firefox_profiles() {
    let ini = "[General]\nStartWithLastProfile=1\n\n[Profile1]\nName=other\nIsRelative=1\nPath=Profiles/abc.other\n\n[Profile0]\nName=default\nIsRelative=1\nPath=Profiles/xyz.default\nDefault=1\n\n[Profile2]\nPath=D:\\FF\\abs\n";
    let c = gecko_places_candidates(ini, "R\\Mozilla\\Firefox");
    assert_eq!(
        c,
        vec![
            ("R\\Mozilla\\Firefox\\Profiles\\abc.other\\places.sqlite".to_string(), false),
            ("R\\Mozilla\\Firefox\\Profiles\\xyz.default\\places.sqlite".to_string(), true),
            ("D:\\FF\\abs\\places.sqlite".to_string(), false),
        ]
    );
    assert_eq!(choose_places(&c, &vec![true, true, true]), Some(c[1].0.clone()));
    assert_eq!(choose_places(&c, &vec![true, false, true]), Some(c[0].0.clone()));
    assert_eq!(choose_places(&c, &vec![false, false, true]), Some(c[2].0.clone()));
    assert_eq!(choose_places(&c, &vec![false, false, false]), None);
}

#[test]
fn detected_browsers() {
    let mut out: Vec<DetectedBrowser> = Vec::new();
    let cands = vec!["p1".to_string(), "p2".to_string(), "p3".to_string()];
    assert_eq!(add_first_new(&mut out, "Chrome", &cands, &vec![false, true, true]), Some(1));
    assert_eq!(out.len(), 1);
    assert_eq!(out[0].path, "p2");
    assert_eq!(out[0].kind, "chromium");
    assert_eq!(add_first_new(&mut out, "Other", &cands, &vec![false, true, true]), Some(2));
    assert_eq!(add_first_new(&mut out, "Third", &cands, &vec![false, true, true]), None);
    assert!(!add_if_new(&mut out, "Dup", "firefox", "p3"));
    assert!(add_if_new(&mut out, "Firefox", "firefox", "places"));
    assert_eq!(out.len(), 3);
    assert_eq!(first_existing(&vec![false, true, true]), Some(1));
    assert_eq!(first_existing(&vec![false]), None);
}

#[test]
fn browser_tables_in_probing_order() {
    let names: Vec<String> = url_album::album::chromium_apps().into_iter().map(|(n, _)| n).collect();
    assert_eq!(names, vec!["Google Chrome", "Microsoft Edge", "Brave", "Vivaldi", "Chromium"]);
    assert_eq!(url_album::album::gecko_apps()[0], ("Mozilla\\Firefox".to_string(), "Mozilla Firefox".to_string()));
    assert_eq!(url_album::album::opera_files(), vec!["Bookmarks", "Default\\Bookmarks", "User Data\\Default\\Bookmarks"]);
}
