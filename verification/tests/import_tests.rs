use std::collections::HashMap;
use url_album::bookmarks::{
    bookmark_title, ChromeFault, import_uadat_plan, plan_chrome, plan_chrome_text, plan_firefox, plan_html, plan_txt, plan_uadat, ChromeNode,
    FfNode, ImportOp,
};

fn shown(ops: &[ImportOp]) -> Vec<String> {
    ops.iter().map(|o| format!("{:?}", o)).collect()
}

#[test]
fn stored_title_falls_back_to_url() {
    assert_eq!(bookmark_title("", "https://x"), "https://x");
    assert_eq!(bookmark_title("X", "https://x"), "X");
}

#[test]
fn uadat_levels_and_fields() {
    let text = "Work\t#\n\tRust\thttps://rust-lang.org\timg\t lang note \t2020\n\tDeep\t#\n\t\tX\thttp://x\nTop\thttp://top\nOther\t#\n\t\n\tY\thttp://y\n\t\tZ\thttp://z\n";
    let plan = plan_uadat(text);
    assert!(!plan.stopped);
    assert_eq!(
        shown(&plan.ops),
        vec![
            "Folder { parent: Root, title: \"Work\", fallback: None }",
            "Bookmark { parent: Planned(0), title: \"Rust\", url: \"https://rust-lang.org\", note: Some(\"lang note\") }",
            "Folder { parent: Planned(0), title: \"Deep\", fallback: None }",
            "Bookmark { parent: Planned(2), title: \"X\", url: \"http://x\", note: None }",
            "Folder { parent: Root, title: \"Other\", fallback: None }",
            "Bookmark { parent: Planned(4), title: \"Y\", url: \"http://y\", note: None }",
        ]
    );
}

#[test]
fn uadat_is_read_as_windows_1251() {
    let mut bytes: Vec<u8> = vec![0xCF, 0xE0, 0xEF, 0xEA, 0xE0];
    bytes.extend_from_slice(b"\t#\r\n\t");
    bytes.extend_from_slice(&[0xD1, 0xF1, 0xFB, 0xEB, 0xEA, 0xE0]);
    bytes.extend_from_slice(b"\thttp://a\r\n");
    let plan = import_uadat_plan(&bytes);
    assert_eq!(
        shown(&plan.ops),
        vec![
            "Folder { parent: Root, title: \"Папка\", fallback: None }",
            "Bookmark { parent: Planned(0), title: \"Ссылка\", url: \"http://a\", note: None }",
        ]
    );
}

#[test]
fn netscape_html_folders_and_links() {
    let text = "<!DOCTYPE NETSCAPE-Bookmark-file-1>\n<DL><p>\n    <DT><H3>Tools &amp; Docs</H3>\n    <DL><p>\n        <DT><A HREF=\"https://a.example/\">A &lt;site&gt;</A>\n        <DT><A HREF=\"https://b.example/\"></A>\n    </DL><p>\n    <DT><A HREF=\"https://c.example/\">C</A>\n</DL><p>\n";
    let plan = plan_html(text);
    assert!(!plan.stopped);
    assert_eq!(
        shown(&plan.ops),
        vec![
            "Folder { parent: Root, title: \"Tools & Docs\", fallback: None }",
            "Bookmark { parent: Planned(0), title: \"A <site>\", url: \"https://a.example/\", note: None }",
            "Bookmark { parent: Planned(0), title: \"https://b.example/\", url: \"https://b.example/\", note: None }",
            "Folder { parent: Root, title: \"Импорт\", fallback: Some(1) }",
            "Bookmark { parent: Planned(3), title: \"C\", url: \"https://c.example/\", note: None }",
        ]
    );
}

#[test]
fn netscape_html_reads_lines_whose_lowercase_changes_length() {
    let text = "<DT><H3>One</H3>\n<DT><A İhref=\"éé\">x</A>\n<DT><H3>Never</H3>\n";
    let plan = plan_html(text);
    assert!(!plan.stopped);
    assert_eq!(
        shown(&plan.ops),
        vec![
            "Folder { parent: Root, title: \"One\", fallback: None }",
            "Bookmark { parent: Planned(0), title: \"x\", url: \"éé\", note: None }",
            "Folder { parent: Planned(0), title: \"Never\", fallback: None }",
        ]
    );
}

fn node(kind: &str, name: Option<&str>, url: Option<&str>, children: Option<Vec<ChromeNode>>) -> ChromeNode {
    ChromeNode {
        kind: kind.to_string(),
        name: name.map(|s| s.to_string()),
        url: url.map(|s| s.to_string()),
        children,
    }
}

#[test]
fn chromium_tree() {
    let roots = vec![
        node(
            "folder",
            Some("Bookmarks bar"),
            None,
            Some(vec![
                node("url", Some("X"), Some("https://x"), None),
                node(
                    "folder",
                    None,
                    None,
                    Some(vec![node("url", Some("empty"), Some(""), None), node("url", None, Some("https://y"), None)]),
                ),
            ]),
        ),
        node("folder", Some("Other"), None, None),
        node("", Some("odd"), Some("https://z"), None),
    ];
    let plan = plan_chrome(&roots, "Chrome");
    assert_eq!(
        shown(&plan.ops),
        vec![
            "Folder { parent: Root, title: \"Chrome\", fallback: None }",
            "Folder { parent: Planned(0), title: \"Bookmarks bar\", fallback: None }",
            "Bookmark { parent: Planned(1), title: \"X\", url: \"https://x\", note: None }",
            "Folder { parent: Planned(1), title: \"Папка\", fallback: None }",
            "Bookmark { parent: Planned(3), title: \"https://y\", url: \"https://y\", note: None }",
            "Folder { parent: Planned(0), title: \"Other\", fallback: None }",
        ]
    );
}

fn row(id: i64, parent: i64, bk_type: i64, title: Option<&str>, fk: Option<i64>) -> FfNode {
    FfNode { id, parent, bk_type, title: title.map(|s| s.to_string()), fk }
}

#[test]
fn firefox_rows() {
    let rows = vec![
        row(1, 0, 2, Some("root"), None),
        row(2, 1, 2, Some("menu"), None),
        row(3, 2, 1, Some("T"), Some(10)),
        row(4, 2, 1, None, Some(11)),
        row(5, 2, 1, Some("query"), Some(12)),
        row(6, 99, 2, Some("orphan"), None),
        row(7, 2, 2, Some(""), None),
        row(8, 7, 1, Some("gone"), Some(13)),
        row(9, 2, 3, None, None),
    ];
    let mut places = HashMap::new();
    places.insert(10, "https://t".to_string());
    places.insert(11, "https://u".to_string());
    places.insert(12, "place:sort=8".to_string());
    let plan = plan_firefox(1, &rows, &places, "Firefox");
    assert_eq!(
        shown(&plan.ops),
        vec![
            "Folder { parent: Root, title: \"Firefox\", fallback: None }",
            "Folder { parent: Planned(0), title: \"menu\", fallback: None }",
            "Bookmark { parent: Planned(1), title: \"T\", url: \"https://t\", note: None }",
            "Bookmark { parent: Planned(1), title: \"https://u\", url: \"https://u\", note: None }",
            "Folder { parent: Planned(1), title: \"Закладки\", fallback: None }",
        ]
    );
}

#[test]
fn firefox_folder_listed_before_its_parent_keeps_its_contents() {
    // Rows ordered by parent: folder 3 lives in folder 20, which is listed later.
    let rows = vec![
        row(1, 0, 2, Some("root"), None),
        row(20, 1, 2, Some("outer"), None),
        row(4, 3, 1, Some("inner link"), Some(10)),
        row(3, 20, 2, Some("inner"), None),
        row(21, 20, 1, Some("outer link"), Some(11)),
        row(30, 31, 1, Some("cycle"), Some(10)),
        row(31, 30, 2, Some("cycle folder"), None),
    ];
    let mut places = HashMap::new();
    places.insert(10, "https://in".to_string());
    places.insert(11, "https://out".to_string());
    let plan = plan_firefox(1, &rows, &places, "Firefox");
    assert_eq!(
        shown(&plan.ops),
        vec![
            "Folder { parent: Root, title: \"Firefox\", fallback: None }",
            "Folder { parent: Planned(0), title: \"outer\", fallback: None }",
            "Folder { parent: Planned(1), title: \"inner\", fallback: None }",
            "Bookmark { parent: Planned(1), title: \"outer link\", url: \"https://out\", note: None }",
            "Bookmark { parent: Planned(2), title: \"inner link\", url: \"https://in\", note: None }",
        ]
    );
}

#[test]
fn text_lists() {
    let text = "# comment\nhttps://a\tA title\n  https://b  \n\t\n\tonly title\nhttps://c\t\n";
    let ops = plan_txt(text, Some(5));
    assert_eq!(
        shown(&ops),
        vec![
            "Bookmark { parent: Existing(5), title: \"A title\", url: \"https://a\", note: None }",
            "Bookmark { parent: Existing(5), title: \"https://b\", url: \"https://b\", note: None }",
            "Bookmark { parent: Existing(5), title: \"only title\", url: \"only title\", note: None }",
            "Bookmark { parent: Existing(5), title: \"https://c\", url: \"https://c\", note: None }",
        ]
    );
    let ops = plan_txt("https://d", None);
    assert_eq!(shown(&ops), vec!["Bookmark { parent: Existing(0), title: \"https://d\", url: \"https://d\", note: None }"]);
}

#[test]
fn text_list_written_and_read_back() {
    let rows = vec![
        ("Заметки\tи ссылки".to_string(), Some("https://a.example/x?y=1".to_string())),
        ("folder".to_string(), None),
        ("B".to_string(), Some("b.example".to_string())),
    ];
    let (text, n) = url_album::export::export_txt_text(&rows);
    assert_eq!(n, 2);
    assert_eq!(
        shown(&plan_txt(&text, Some(9))),
        vec![
            "Bookmark { parent: Existing(9), title: \"Заметки\\tи ссылки\", url: \"https://a.example/x?y=1\", note: None }",
            "Bookmark { parent: Existing(9), title: \"B\", url: \"b.example\", note: None }",
        ]
    );
    // A title with white space at its end comes back trimmed.
    let (text, _) = url_album::export::export_txt_text(&vec![("T ".to_string(), Some("u".to_string()))]);
    assert_eq!(shown(&plan_txt(&text, None)), vec!["Bookmark { parent: Existing(0), title: \"T\", url: \"u\", note: None }"]);
}

#[test]
fn chromium_file_text() {
    let text = r#"{"version": 1, "roots": {
        "other": {"type": "folder", "name": "Other", "children": [{"type": "url", "name": "B", "url": "https://b"}]},
        "bookmark_bar": {"type": "folder", "children": [
            {"type": "url", "url": "https://a"},
            {"type": "url", "name": 5, "url": ""},
            {"type": "folder", "name": "Sub", "children": []}
        ]}
    }}"#;
    let plan = match plan_chrome_text(text, "Chrome") {
        Ok(p) => p,
        Err(e) => panic!("no plan: {:?}", e),
    };
    assert!(!plan.stopped);
    assert_eq!(
        shown(&plan.ops),
        vec![
            "Folder { parent: Root, title: \"Chrome\", fallback: None }",
            "Folder { parent: Planned(0), title: \"Папка\", fallback: None }",
            "Bookmark { parent: Planned(1), title: \"https://a\", url: \"https://a\", note: None }",
            "Folder { parent: Planned(1), title: \"Sub\", fallback: None }",
            "Folder { parent: Planned(0), title: \"Other\", fallback: None }",
            "Bookmark { parent: Planned(4), title: \"B\", url: \"https://b\", note: None }",
        ]
    );
}

#[test]
fn chromium_file_text_faults() {
    assert!(matches!(plan_chrome_text("{ not json", "Chrome"), Err(ChromeFault::NotJson)));
    let plan = match plan_chrome_text("{\"roots\": 3}", "Edge") {
        Ok(p) => p,
        Err(e) => panic!("no plan: {:?}", e),
    };
    assert_eq!(shown(&plan.ops), vec!["Folder { parent: Root, title: \"Edge\", fallback: None }"]);
}
