use url_album::bookmarks::DbBookmark;
use url_album::export::{export_html_text, export_txt_text, folder_export_html, ExportNode};
use url_album::store::{crumb_start, crumb_step, crumb_text, reorder};

const HEAD: &str = "<!DOCTYPE NETSCAPE-Bookmark-file-1>\n<META HTTP-EQUIV=\"Content-Type\" CONTENT=\"text/html; charset=UTF-8\">\n<TITLE>Bookmarks</TITLE>\n<H1>Bookmarks</H1>\n<DL><p>\n";

fn node(id: i64, parent: Option<i64>, kind: &str, title: &str, url: Option<&str>) -> ExportNode {
    ExportNode { id, parent, kind: kind.to_string(), title: title.to_string(), url: url.map(|s| s.to_string()) }
}

#[test]
fn html_export() {
    let nodes = vec![
        node(1, None, "folder", "A & B", None),
        node(2, Some(1), "bookmark", "<x>", Some("http://x/")),
        node(3, Some(1), "bookmark", "no url", None),
    ];
    let (html, n) = export_html_text(&nodes);
    assert_eq!(n, 1);
    let expected = format!(
        "{HEAD}<DT><H3>A &amp; B</H3>\n<DL><p>\n    <DT><A HREF=\"http://x/\">&lt;x&gt;</A>\n</DL><p>\n</DL><p>\n"
    );
    assert_eq!(html, expected);
    let (empty, n0) = export_html_text(&Vec::new());
    assert_eq!(n0, 0);
    assert_eq!(empty, format!("{HEAD}</DL><p>\n"));
}

#[test]
fn html_export_keeps_links_in_their_folders() {
    let nodes = vec![
        node(1, None, "folder", "A", None),
        node(2, Some(0), "folder", "B", None),
        node(3, Some(1), "bookmark", "x", Some("ux")),
        node(4, Some(2), "bookmark", "y", Some("uy")),
    ];
    let (html, n) = export_html_text(&nodes);
    assert_eq!(n, 2);
    let expected = format!(
        "{HEAD}<DT><H3>A</H3>\n<DL><p>\n    <DT><A HREF=\"ux\">x</A>\n</DL><p>\n<DT><H3>B</H3>\n<DL><p>\n    <DT><A HREF=\"uy\">y</A>\n</DL><p>\n</DL><p>\n"
    );
    assert_eq!(html, expected);
}

#[test]
fn html_export_nests_folders_and_skips_unreachable() {
    let nodes = vec![
        node(1, None, "folder", "Top", None),
        node(2, Some(1), "folder", "Inner", None),
        node(3, Some(2), "bookmark", "deep", Some("ud")),
        node(4, Some(99), "bookmark", "lost", Some("ul")),
    ];
    let (html, n) = export_html_text(&nodes);
    assert_eq!(n, 1);
    let expected = format!(
        "{HEAD}<DT><H3>Top</H3>\n<DL><p>\n    <DT><H3>Inner</H3>\n    <DL><p>\n        <DT><A HREF=\"ud\">deep</A>\n    </DL><p>\n</DL><p>\n</DL><p>\n"
    );
    assert_eq!(html, expected);
}

fn bm(id: i64, title: &str, url: Option<&str>) -> DbBookmark {
    DbBookmark { id, title: title.to_string(), url: url.map(|s| s.to_string()), note: None, created: None, thumb: None }
}

#[test]
fn folder_export_keeps_titles() {
    let (html, n) = folder_export_html(&vec![bm(1, "a&b", Some("u1")), bm(2, "x", None)]);
    assert_eq!(n, 1);
    assert_eq!(html, format!("{HEAD}    <DT><A HREF=\"u1\">a&b</A>\n</DL><p>\n"));
}

#[test]
fn text_export() {
    let rows = vec![("T1".to_string(), Some("u1".to_string())), ("T2".to_string(), None), ("T3".to_string(), Some("u3".to_string()))];
    assert_eq!(export_txt_text(&rows), ("u1\tT1\nu3\tT3\n".to_string(), 2));
}

#[test]
fn folder_path() {
    let mut w = crumb_start(7);
    assert_eq!(w.next, Some(7));
    crumb_step(&mut w, Some(("Leaf".to_string(), Some(3))));
    assert_eq!(w.next, Some(3));
    crumb_step(&mut w, Some(("Mid".to_string(), Some(1))));
    crumb_step(&mut w, Some(("Root".to_string(), None)));
    assert_eq!(w.next, None);
    assert_eq!(crumb_text(&w.titles), "Root › Mid › Leaf");
    let mut v = crumb_start(5);
    crumb_step(&mut v, None);
    assert_eq!(v.next, None);
    assert_eq!(crumb_text(&v.titles), "");
}

#[test]
fn folder_path_stops_after_eleven_titles() {
    let mut w = crumb_start(1);
    let mut steps = 0;
    while w.next.is_some() {
        crumb_step(&mut w, Some((format!("t{steps}"), Some(1))));
        steps += 1;
    }
    assert_eq!(steps, 11);
    assert_eq!(w.titles.len(), 11);
}

#[test]
fn moving_among_siblings() {
    let s = vec![10, 20, 30];
    assert_eq!(reorder(&s, 20, -1), Some(vec![20, 10, 30]));
    assert_eq!(reorder(&s, 20, 1), Some(vec![10, 30, 20]));
    assert_eq!(reorder(&s, 10, -1), None);
    assert_eq!(reorder(&s, 30, 1), None);
    assert_eq!(reorder(&s, 99, 1), None);
    let moved = reorder(&s, 10, 2).unwrap();
    assert_eq!(moved, vec![30, 20, 10]);
    assert_eq!(reorder(&moved, 10, -2), Some(s.clone()));
    assert_eq!(reorder(&s, 10, i64::MAX), None);
}
