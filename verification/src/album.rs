//! The rules of the album window: how links are opened, which browsers'
//! bookmark files are looked for, the recent-file list, sorting and
//! navigation in the list, and the small texts the window shows.

use vstd::prelude::*;
use vstd::string::{StrSliceExecFns, StringExecFns, StringSliceAdditionalSpecFns};
use vstd::utf8::*;
use vstd::multiset::Multiset;
use crate::bookmarks::{BookmarkView, DbBookmark, DbFolder};
use crate::net::{extract_domain, host_bytes};
use std::collections::{HashMap, HashSet};
use crate::text::{
    decimal, decimal_string, signed_decimal, signed_decimal_string,
    char_string, find, find_bytes, find_str, lemma_ascii_boundary, lemma_find_from, lemma_str_bytes,
    slice_from, str_eq, str_lowercase, str_trim, substr, to_lowercase, trim, utf8, SliceFault, matches_at,
    leading_ws,
};

verus! {

// ── Opening links ──────────────────────────────────────────────────────────

pub open spec fn has_scheme_mark(t: Seq<char>) -> bool {
    find(utf8(t), utf8("://"@)) is Some
}

pub open spec fn is_mailto(t: Seq<char>) -> bool {
    t.len() >= 7 && t.subrange(0, 7) == "mailto:"@
}

/// The address a link opens: the trimmed text, with `https://` put before it
/// unless it already names a scheme (`://`) or is a `mailto:` address; empty
/// stays empty.
pub open spec fn normalized_url(url: Seq<char>) -> Seq<char> {
    let t = str_trim(url);
    if t.len() == 0 {
        Seq::empty()
    } else if has_scheme_mark(t) || is_mailto(t) {
        t
    } else {
        "https://"@ + t
    }
}

pub(crate) fn starts_with_str(s: &str, p: &str) -> (r: bool)
    ensures
        r == (s@.len() >= p@.len() && s@.subrange(0, p@.len() as int) == p@),
{
    let n = p.unicode_len();
    if s.unicode_len() < n {
        return false;
    }
    let mut i: usize = 0;
    while i < n
        invariant
            n == p@.len(),
            n <= s@.len(),
            i <= n,
            forall|j: int| 0 <= j < i ==> s@[j] == p@[j],
        decreases n - i,
    {
        if s.get_char(i) != p.get_char(i) {
            return false;
        }
        i += 1;
    }
    assert(s@.subrange(0, n as int) =~= p@);
    true
}

pub fn normalize_url(url: &str) -> (r: String)
    ensures
        r@ == normalized_url(url@),
{
    let t = trim(url);
    if t.unicode_len() == 0 {
        return String::new();
    }
    let mark = "://";
    let mailto = "mailto:";
    proof {
        reveal_strlit("mailto:");
    }
    if find_str(t, mark).is_some() || starts_with_str(t, mailto) {
        t.to_owned()
    } else {
        let mut out = String::from_str("https://");
        out.append(t);
        out
    }
}

/// Opening a link normalizes its address once: normalizing the result again
/// changes nothing.
pub proof fn law_normalize_idempotent(url: Seq<char>)
    ensures
        normalized_url(normalized_url(url)) == normalized_url(url),
{
    let t = str_trim(url);
    crate::text::lemma_trim_twice(url);
    if t.len() > 0 && !(has_scheme_mark(t) || is_mailto(t)) {
        let n = "https://"@ + t;
        reveal_strlit("https://");
        reveal_strlit("://");
        assert(n[0] == 'h');
        assert(n.last() == t.last());
        crate::text::lemma_trim_clean(n);
        let pre = "https://"@;
        crate::text::lemma_utf8_concat(pre, t);
        crate::text::lemma_utf8_ascii(pre);
        crate::text::lemma_utf8_ascii("://"@);
        let b = utf8(n);
        let mark = utf8("://"@);
        assert(mark =~= seq![58u8, 47u8, 47u8]);
        assert(b.subrange(5, 8) =~= mark);
        assert(matches_at(b, mark, 5));
        crate::text::lemma_find_from(b, mark, 0);
        assert(has_scheme_mark(n));
    } else if t.len() == 0 {
        let e = Seq::<char>::empty();
        assert(leading_ws(e) == 0);
        assert(str_trim(e).len() == 0);
    }
}

// ── Browsers ───────────────────────────────────────────────────────────────

/// Where a Chromium-family browser keeps its bookmarks under an install or
/// profile base, in the order they are tried.
pub open spec fn chromium_paths(base: Seq<char>, app: Seq<char>) -> Seq<Seq<char>> {
    seq![
        base + "\\"@ + app + "\\User Data\\Default\\Bookmarks"@,
        base + "\\"@ + app + "\\Default\\Bookmarks"@,
        base + "\\"@ + app + "\\Bookmarks"@,
    ]
}

fn joined(base: &str, app: &str, tail: &str) -> (r: String)
    ensures
        r@ == base@ + "\\"@ + app@ + tail@,
{
    let mut s = String::from_str(base);
    s.append("\\");
    s.append(app);
    s.append(tail);
    s
}

pub fn chromium_bookmark_paths(base: &str, app_name: &str) -> (r: Vec<String>)
    ensures
        r@.map_values(|s: String| s@) == chromium_paths(base@, app_name@),
{
    let mut v: Vec<String> = Vec::new();
    v.push(joined(base, app_name, "\\User Data\\Default\\Bookmarks"));
    v.push(joined(base, app_name, "\\Default\\Bookmarks"));
    v.push(joined(base, app_name, "\\Bookmarks"));
    assert(v@.map_values(|s: String| s@) =~= chromium_paths(base@, app_name@));
    v
}

pub open spec fn contains_text(hay: Seq<char>, needle: Seq<char>) -> bool {
    find(utf8(hay), utf8(needle)) is Some
}

pub open spec fn ascii_upper(c: char) -> char {
    if 'a' <= c && c <= 'z' {
        ((c as u32) - 32) as char
    } else {
        c
    }
}

/// The badge of a browser in the import list: a letter and its colour. A
/// Firefox-family browser gets a grey `?`; known Chromium browsers (checked
/// on the lower-cased name, in this order: chrome or chromium, edge, opera,
/// brave, vivaldi) their own letter and colour; any other the upper-cased
/// first letter of its name (`?` for an empty name) in dark grey.
pub open spec fn browser_badge(name: Seq<char>, kind: Seq<char>) -> (Seq<char>, (u8, u8, u8)) {
    let nl = str_lowercase(name);
    if kind == "firefox"@ {
        ("?"@, (136u8, 136u8, 136u8))
    } else if contains_text(nl, "chrome"@) || contains_text(nl, "chromium"@) {
        ("C"@, (26u8, 115u8, 232u8))
    } else if contains_text(nl, "edge"@) {
        ("E"@, (0u8, 120u8, 212u8))
    } else if contains_text(nl, "opera"@) {
        ("O"@, (255u8, 27u8, 45u8))
    } else if contains_text(nl, "brave"@) {
        ("B"@, (251u8, 84u8, 43u8))
    } else if contains_text(nl, "vivaldi"@) {
        ("V"@, (239u8, 57u8, 57u8))
    } else if name.len() > 0 {
        (seq![ascii_upper(name[0])], (85u8, 85u8, 85u8))
    } else {
        ("?"@, (85u8, 85u8, 85u8))
    }
}

pub fn browser_letter_color(name: &str, kind: &str) -> (r: (String, (u8, u8, u8)))
    ensures
        r.0@ == browser_badge(name@, kind@).0,
        r.1 == browser_badge(name@, kind@).1,
{
    let nl = to_lowercase(name);
    let nls = nl.as_str();
    if str_eq(kind, "firefox") {
        return ("?".to_owned(), (136u8, 136u8, 136u8));
    }
    if find_str(nls, "chrome").is_some() || find_str(nls, "chromium").is_some() {
        return ("C".to_owned(), (26u8, 115u8, 232u8));
    }
    if find_str(nls, "edge").is_some() {
        return ("E".to_owned(), (0u8, 120u8, 212u8));
    }
    if find_str(nls, "opera").is_some() {
        return ("O".to_owned(), (255u8, 27u8, 45u8));
    }
    if find_str(nls, "brave").is_some() {
        return ("B".to_owned(), (251u8, 84u8, 43u8));
    }
    if find_str(nls, "vivaldi").is_some() {
        return ("V".to_owned(), (239u8, 57u8, 57u8));
    }
    if name.unicode_len() > 0 {
        let c = name.get_char(0);
        let u = if c >= 'a' && c <= 'z' {
            let code: u32 = (c as u32) - 32;
            let up: char = (code as u8) as char;
            assert(up == ascii_upper(c));
            up
        } else {
            c
        };
        (char_string(u), (85u8, 85u8, 85u8))
    } else {
        ("?".to_owned(), (85u8, 85u8, 85u8))
    }
}

/// Which importer a picked bookmark file goes to: Firefox for `places.sqlite`
/// and any `.sqlite` file (the name compared in ASCII lower case), Chromium
/// JSON otherwise.
pub open spec fn is_firefox_file(lower_name: Seq<char>) -> bool {
    lower_name == "places.sqlite"@ || (lower_name.len() >= 7 && lower_name.subrange(
        lower_name.len() - 7,
        lower_name.len() as int,
    ) == ".sqlite"@)
}

pub fn picked_file_is_firefox(lower_name: &str) -> (r: bool)
    ensures
        r == is_firefox_file(lower_name@),
{
    if str_eq(lower_name, "places.sqlite") {
        return true;
    }
    assert(lower_name@ != "places.sqlite"@);
    let n = lower_name.unicode_len();
    let suffix = ".sqlite";
    proof {
        reveal_strlit(".sqlite");
    }
    if n < 7 {
        return false;
    }
    let mut i: usize = 0;
    while i < 7
        invariant
            n == lower_name@.len(),
            n >= 7,
            lower_name@ != "places.sqlite"@,
            suffix@ == ".sqlite"@,
            suffix@.len() == 7,
            i <= 7,
            forall|j: int| 0 <= j < i ==> lower_name@[n - 7 + j] == suffix@[j],
        decreases 7 - i,
    {
        if lower_name.get_char(n - 7 + i) != suffix.get_char(i) {
            assert(lower_name@.subrange(n - 7, n as int)[i as int] != ".sqlite"@[i as int]);
            assert(lower_name@.subrange(n - 7, n as int) != ".sqlite"@);
            assert(!is_firefox_file(lower_name@));
            return false;
        }
        i += 1;
    }
    assert(lower_name@.subrange(n - 7, n as int) =~= ".sqlite"@);
    true
}

// ── Recent databases ───────────────────────────────────────────────────────

pub open spec fn views(v: Seq<String>) -> Seq<Seq<char>> {
    v.map_values(|s: String| s@)
}

pub open spec fn other_than(path: Seq<char>) -> spec_fn(Seq<char>) -> bool {
    |x: Seq<char>| x != path
}

/// The recent list after opening `path`: the path first, its older entries
/// removed, at most ten entries.
pub open spec fn recent_after(list: Seq<Seq<char>>, path: Seq<char>) -> Seq<Seq<char>> {
    let kept = list.filter(other_than(path));
    let all = seq![path] + kept;
    if all.len() > 10 {
        all.subrange(0, 10)
    } else {
        all
    }
}

pub fn recent_with(list: Vec<String>, path: &str) -> (r: Vec<String>)
    ensures
        views(r@) == recent_after(views(list@), path@),
{
    let ghost lv = views(list@);
    reveal(Seq::filter);
    let mut kept: Vec<String> = Vec::new();
    kept.push(path.to_owned());
    let mut i: usize = 0;
    assert(lv.take(0).filter(other_than(path@)) =~= Seq::<Seq<char>>::empty());
    while i < list.len()
        invariant
            lv == views(list@),
            i <= list@.len(),
            views(kept@) == seq![path@] + lv.take(i as int).filter(other_than(path@)),
        decreases list@.len() - i,
    {
        reveal(Seq::filter);
        let ghost before = views(kept@);
        assert(lv.take(i + 1).drop_last() =~= lv.take(i as int));
        assert(lv.take(i + 1).last() == list@[i as int]@);
        let keep = !str_eq(list[i].as_str(), path);
        if keep {
            kept.push(list[i].as_str().to_owned());
            assert(views(kept@) =~= before.push(list@[i as int]@));
        }
        i += 1;
        assert(lv.take(i as int).drop_last() =~= lv.take(i - 1));
        assert(lv.take(i as int).filter(other_than(path@)) == if keep {
            lv.take(i - 1).filter(other_than(path@)).push(lv[i - 1])
        } else {
            lv.take(i - 1).filter(other_than(path@))
        });
        assert(views(kept@) =~= seq![path@] + lv.take(i as int).filter(other_than(path@)));
    }
    assert(lv.take(i as int) =~= lv);
    kept.truncate(10);
    assert(views(kept@) =~= recent_after(lv, path@));
    kept
}

proof fn lemma_filter_keeps_all(s: Seq<Seq<char>>, pred: spec_fn(Seq<char>) -> bool)
    requires
        forall|i: int| 0 <= i < s.len() ==> pred(#[trigger] s[i]),
    ensures
        s.filter(pred) == s,
    decreases s.len(),
{
    reveal(Seq::filter);
    if s.len() > 0 {
        lemma_filter_keeps_all(s.drop_last(), pred);
        assert(s.drop_last().push(s.last()) =~= s);
    }
}

/// Opening a database puts its path first and lists it only there, keeps
/// at most ten entries, and opening the same path again changes nothing.
pub proof fn law_recent_list(list: Seq<Seq<char>>, path: Seq<char>)
    ensures
        ({
            let r = recent_after(list, path);
            &&& 1 <= r.len() <= 10
            &&& r[0] == path
            &&& forall|i: int| 1 <= i < r.len() ==> r[i] != path
            &&& recent_after(r, path) == r
        }),
{
    let pred = other_than(path);
    let kept = list.filter(pred);
    #[allow(deprecated)]
    list.filter_lemma(pred);
    let r = recent_after(list, path);
    assert forall|i: int| 1 <= i < r.len() implies r[i] != path by {
        assert(r[i] == kept[i - 1]);
        assert(pred(kept[i - 1]));
    }
    let tail = r.drop_first();
    assert forall|i: int| 0 <= i < tail.len() implies pred(#[trigger] tail[i]) by {
        assert(tail[i] == r[i + 1]);
    }
    lemma_filter_keeps_all(tail, pred);
    assert(seq![path] + tail =~= r);
    tail.lemma_filter_prepend(path, pred);
    assert(r.filter(pred) =~= tail);
}

pub open spec fn non_empty_line() -> spec_fn(Seq<u8>) -> bool {
    |l: Seq<u8>| l.len() > 0
}

pub open spec fn decoded(v: Seq<Seq<u8>>) -> Seq<Seq<char>> {
    v.map_values(|l: Seq<u8>| decode_utf8(l))
}

/// The recent list read from its file: the non-empty lines.
pub open spec fn recent_from(lines: Seq<Seq<u8>>) -> Seq<Seq<char>> {
    decoded(lines.filter(non_empty_line()))
}

pub fn recent_list(text: &str) -> (r: Vec<String>)
    ensures
        views(r@) == recent_from(crate::text::lines_of(text.spec_bytes())),
{
    let lines = crate::text::split_lines(text);
    let ghost ls = crate::text::lines_of(text.spec_bytes());
    reveal(Seq::filter);
    let mut out: Vec<String> = Vec::new();
    let mut i: usize = 0;
    assert(ls.take(0).filter(non_empty_line()) =~= Seq::<Seq<u8>>::empty());
    assert(decoded(ls.take(0).filter(non_empty_line())) =~= Seq::<Seq<char>>::empty());
    while i < lines.len()
        invariant
            crate::text::str_bytes_seq(lines@) == ls,
            i <= lines@.len(),
            views(out@) == decoded(ls.take(i as int).filter(non_empty_line())),
        decreases lines@.len() - i,
    {
        reveal(Seq::filter);
        let ghost before = views(out@);
        let line = lines[i];
        proof {
            assert(ls[i as int] == line.spec_bytes());
            crate::text::lemma_str_bytes(line);
            assert(ls.take(i + 1).drop_last() =~= ls.take(i as int));
            encode_utf8_decode_utf8(line@);
        }
        let keep = line.as_bytes().len() > 0;
        if keep {
            out.push(line.to_owned());
            assert(views(out@) =~= before.push(decode_utf8(ls[i as int])));
        }
        i += 1;
        assert(ls.take(i as int).drop_last() =~= ls.take(i - 1));
        assert(ls.take(i as int).filter(non_empty_line()) == if keep {
            ls.take(i - 1).filter(non_empty_line()).push(ls[i - 1])
        } else {
            ls.take(i - 1).filter(non_empty_line())
        });
        assert(views(out@) =~= decoded(ls.take(i as int).filter(non_empty_line())));
    }
    assert(ls.take(i as int) =~= ls);
    out
}

/// The recent-list file: the paths, one per line.
pub open spec fn recent_text(list: Seq<Seq<char>>) -> Seq<char>
    decreases list.len(),
{
    if list.len() == 0 {
        Seq::empty()
    } else if list.len() == 1 {
        list[0]
    } else {
        recent_text(list.drop_last()) + "\n"@ + list.last()
    }
}

pub fn recent_file_text(list: &Vec<String>) -> (r: String)
    ensures
        r@ == recent_text(views(list@)),
{
    let ghost lv = views(list@);
    let mut out = String::new();
    let mut i: usize = 0;
    assert(lv.take(0) =~= Seq::<Seq<char>>::empty());
    while i < list.len()
        invariant
            lv == views(list@),
            i <= list@.len(),
            out@ == recent_text(lv.take(i as int)),
        decreases list@.len() - i,
    {
        if i > 0 {
            out.append("\n");
        }
        out.append(list[i].as_str());
        i += 1;
        assert(lv.take(i as int).drop_last() =~= lv.take(i - 1));
        assert(lv.take(i as int).last() == list@[i - 1]@);
        if i == 1 {
            assert(out@ =~= recent_text(lv.take(i as int)));
        }
    }
    assert(lv.take(i as int) =~= lv);
    out
}

/// The bytes of a path that does not hold a line break: none of them is a
/// line feed, and the last is a carriage return only where the path ends
/// with one.
proof fn lemma_path_bytes(p: Seq<char>)
    requires
        p.len() > 0,
        forall|k: int| 0 <= k < p.len() ==> #[trigger] p[k] != '\n',
    ensures
        forall|k: int| 0 <= k < utf8(p).len() ==> #[trigger] utf8(p)[k] != 10u8,
        utf8(p).len() > 0,
        utf8(p).last() == 13u8 ==> p.last() == '\r',
{
    assert forall|i: int| 0 <= i < p.len() implies (#[trigger] p[i] as u32) != 10u8 as u32 by {
        if p[i] as u32 == 10 {
            vstd::utf8::char_u32_cast(p[i], 10);
            vstd::utf8::char_u32_cast('\n', 10);
        }
    }
    crate::text::lemma_utf8_ascii_byte(p, 10u8);
    let last = seq![p.last()];
    assert(p =~= p.drop_last() + last);
    crate::text::lemma_utf8_concat(p.drop_last(), last);
    if p.last() != '\r' {
        assert((p.last() as u32) != 13u8 as u32) by {
            if p.last() as u32 == 13 {
                vstd::utf8::char_u32_cast(p.last(), 13);
                vstd::utf8::char_u32_cast('\r', 13);
            }
        }
        crate::text::lemma_utf8_ascii_byte(last, 13u8);
    }
    vstd::utf8::char_is_scalar(p.last());
    assert(utf8(last).len() > 0);
    assert(utf8(p).last() == utf8(last).last());
}

/// The recent list written to its file reads back as the same list, for
/// paths that are not empty and hold no line break, all but the last not
/// ending with a carriage return.
pub proof fn law_recent_read_back(list: Seq<Seq<char>>)
    requires
        forall|i: int| 0 <= i < list.len() ==> #[trigger] list[i].len() > 0,
        forall|i: int, k: int| 0 <= i < list.len() && 0 <= k < list[i].len() ==> #[trigger] list[i][k] != '\n',
        forall|i: int| 0 <= i < list.len() - 1 ==> #[trigger] list[i].last() != '\r',
    ensures
        recent_from(crate::text::lines_of(utf8(recent_text(list)))) == list,
    decreases list.len(),
{
    reveal(Seq::filter);
    if list.len() == 0 {
        assert(utf8(recent_text(list)) =~= Seq::<u8>::empty());
        assert(crate::text::lines_of(Seq::<u8>::empty()) == Seq::<Seq<u8>>::empty());
        assert(Seq::<Seq<u8>>::empty().filter(non_empty_line()) =~= Seq::<Seq<u8>>::empty());
        assert(recent_from(Seq::<Seq<u8>>::empty()) =~= list);
    } else {
        let e = list.last();
        let b = utf8(e);
        lemma_path_bytes(e);
        let nl = seq![10u8];
        // A path without a line break is one line.
        assert forall|j: int| 0 <= j && j + 1 <= b.len() implies !matches_at(b, nl, j) by {
            if matches_at(b, nl, j) {
                assert(b.subrange(j, j + 1)[0] == b[j]);
            }
        }
        crate::text::lemma_find_none(b, nl);
        assert(crate::text::lines_of(b) == seq![b]);
        assert(seq![b].drop_last() =~= Seq::<Seq<u8>>::empty());
        assert(seq![b].filter(non_empty_line()) =~= seq![b]);
        vstd::utf8::encode_utf8_decode_utf8(e);
        if list.len() == 1 {
            assert(recent_text(list) == e);
            assert(decoded(seq![b]) =~= list);
        } else {
            let init = list.drop_last();
            assert forall|i: int| 0 <= i < init.len() implies #[trigger] init[i].len() > 0 by {
                assert(init[i] == list[i]);
            }
            assert forall|i: int, k: int| 0 <= i < init.len() && 0 <= k < init[i].len() implies #[trigger] init[i][k]
                != '\n' by {
                assert(init[i] == list[i]);
            }
            assert forall|i: int| 0 <= i < init.len() - 1 implies #[trigger] init[i].last() != '\r' by {
                assert(init[i] == list[i]);
            }
            law_recent_read_back(init);
            let t = recent_text(init);
            let a = utf8(t);
            lemma_recent_text_end(init);
            reveal_strlit("\n");
            crate::text::lemma_utf8_concat(t, "\n"@);
            crate::text::lemma_utf8_concat(t + "\n"@, e);
            crate::text::lemma_utf8_ascii("\n"@);
            assert(utf8(recent_text(list)) =~= (a + nl) + b);
            crate::text::lemma_lines_concat(a + nl, b);
            crate::text::lemma_lines_final_break(a);
            let la = crate::text::lines_of(a);
            assert((la + seq![b]).filter(non_empty_line()) == la.filter(non_empty_line()) + seq![b].filter(
                non_empty_line(),
            )) by {
                vstd::seq::Seq::filter_distributes_over_add(la, seq![b], non_empty_line());
            }
            assert(decoded(la.filter(non_empty_line()) + seq![b]) =~= decoded(la.filter(non_empty_line()))
                + decoded(seq![b]));
            assert(list =~= init.push(e));
        }
    }
}

/// The file text of a non-empty list ends with the last path's bytes: not
/// a line feed, and a carriage return only where that path ends with one.
proof fn lemma_recent_text_end(list: Seq<Seq<char>>)
    requires
        list.len() > 0,
        forall|i: int| 0 <= i < list.len() ==> #[trigger] list[i].len() > 0,
        forall|i: int, k: int| 0 <= i < list.len() && 0 <= k < list[i].len() ==> #[trigger] list[i][k] != '\n',
        list.last().last() != '\r',
    ensures
        utf8(recent_text(list)).len() > 0,
        utf8(recent_text(list)).last() != 10u8,
        utf8(recent_text(list)).last() != 13u8,
{
    let e = list.last();
    lemma_path_bytes(e);
    let b = utf8(e);
    if list.len() > 1 {
        reveal_strlit("\n");
        let t = recent_text(list.drop_last());
        crate::text::lemma_utf8_concat(t, "\n"@);
        crate::text::lemma_utf8_concat(t + "\n"@, e);
        assert(utf8(recent_text(list)).last() == b.last());
    }
}

// ── Sorting and moving in the list ─────────────────────────────────────────

#[derive(Clone, Copy, Debug, PartialEq, Eq, Structural)]
pub enum SortBy {
    Title,
    Url,
}

/// The sort button's cycle: title ascending, title descending, address
/// ascending, address descending, and round again.
pub open spec fn next_sort(by: SortBy, asc: bool) -> (SortBy, bool) {
    if asc {
        (by, false)
    } else {
        match by {
            SortBy::Title => (SortBy::Url, true),
            SortBy::Url => (SortBy::Title, true),
        }
    }
}

pub fn sort_toggle(by: SortBy, asc: bool) -> (r: (SortBy, bool))
    ensures
        r == next_sort(by, asc),
{
    match (by, asc) {
        (SortBy::Title, true) => (SortBy::Title, false),
        (SortBy::Title, false) => (SortBy::Url, true),
        (SortBy::Url, true) => (SortBy::Url, false),
        (SortBy::Url, false) => (SortBy::Title, true),
    }
}

/// Four presses of the sort button bring back the order it started from.
pub proof fn law_sort_cycle(by: SortBy, asc: bool)
    ensures
        ({
            let a = next_sort(by, asc);
            let b = next_sort(a.0, a.1);
            let c = next_sort(b.0, b.1);
            next_sort(c.0, c.1)
        }) == (by, asc),
{
}

/// The caption of the sort button.
pub open spec fn sort_caption(by: SortBy, asc: bool) -> Seq<char> {
    (match by {
        SortBy::Title => "Название"@,
        SortBy::Url => "URL"@,
    }) + " "@ + if asc {
        "↑"@
    } else {
        "↓"@
    }
}

pub fn sort_label(by: SortBy, asc: bool) -> (r: String)
    ensures
        r@ == sort_caption(by, asc),
{
    let mut s = match by {
        SortBy::Title => String::from_str("Название"),
        SortBy::Url => String::from_str("URL"),
    };
    s.append(" ");
    s.append(
        if asc {
            "↑"
        } else {
            "↓"
        },
    );
    s
}

/// The place the arrow keys move the selection to: the first bookmark when
/// none is selected in the list, else `delta` places on, wrapping round.
pub open spec fn nav_target(cur: Option<int>, delta: int, len: int) -> int {
    match cur {
        None => 0,
        Some(p) => {
            let q = (p + delta) % len;
            q
        },
    }
}

pub fn nav_position(ids: &Vec<i64>, selected: Option<i64>, delta: i32) -> (r: Option<usize>)
    requires
        ids@.len() <= i32::MAX,
    ensures
        ids@.len() == 0 <==> r is None,
        r matches Some(k) ==> k < ids@.len() && k as int == nav_target(
            match selected {
                Some(s) => crate::store::first_index(ids@, s),
                None => None,
            },
            delta as int,
            ids@.len() as int,
        ),
{
    let n = ids.len();
    if n == 0 {
        return None;
    }
    let cur = match selected {
        Some(s) => {
            proof {
                crate::store::lemma_first_index(ids@, s);
            }
            let mut p: usize = 0;
            while p < n && ids[p] != s
                invariant
                    n == ids@.len(),
                    p <= n,
                    forall|j: int| 0 <= j < p ==> ids@[j] != s,
                decreases n - p,
            {
                p += 1;
            }
            if p == n {
                assert(!ids@.contains(s)) by {
                    if ids@.contains(s) {
                        let j = choose|j: int| 0 <= j < ids@.len() && ids@[j] == s;
                        assert(ids@[j] != s);
                    }
                }
                None
            } else {
                Some(p)
            }
        },
        None => None,
    };
    match cur {
        None => Some(0),
        Some(p) => {
            let a: i64 = p as i64 + delta as i64;
            let nn: i64 = n as i64;
            let q: i64 = if a >= 0 {
                let r = a % nn;
                proof {
                    vstd::arithmetic::div_mod::lemma_fundamental_div_mod(a as int, nn as int);
                }
                r
            } else {
                let b: i64 = -a;
                let r = b % nn;
                proof {
                    vstd::arithmetic::div_mod::lemma_fundamental_div_mod(b as int, nn as int);
                    let k = (b as int) / (nn as int);
                    assert(b as int == k * (nn as int) + (r as int)) by (nonlinear_arith)
                        requires
                            b as int == (nn as int) * k + (r as int),
                    ;
                    if r == 0 {
                        assert(a as int == (-k) * (nn as int) + 0) by (nonlinear_arith)
                            requires
                                b as int == k * (nn as int) + (r as int),
                                r == 0,
                                a == -b,
                        ;
                        vstd::arithmetic::div_mod::lemma_fundamental_div_mod_converse(a as int, nn as int, -k, 0);
                    } else {
                        assert(a as int == (-k - 1) * (nn as int) + (nn - r)) by (nonlinear_arith)
                            requires
                                b as int == k * (nn as int) + (r as int),
                                a == -b,
                        ;
                        vstd::arithmetic::div_mod::lemma_fundamental_div_mod_converse(
                            a as int,
                            nn as int,
                            -k - 1,
                            (nn - r) as int,
                        );
                    }
                }
                if r == 0 {
                    0
                } else {
                    nn - r
                }
            };
            Some(q as usize)
        },
    }
}

// ── Texts of the window ────────────────────────────────────────────────────

/// The date part of a creation time: its first ten bytes, where it is
/// longer; `Err` where byte ten falls inside a character.
pub fn created_display(created: &str) -> (r: Result<String, SliceFault>)
    ensures
        created.spec_bytes().len() < 10 ==> (r matches Ok(s) && s@ == created@),
        created.spec_bytes().len() >= 10 ==> (is_char_boundary(created.spec_bytes(), 10) <==> r is Ok),
        created.spec_bytes().len() >= 10 ==> (r matches Ok(s) ==> utf8(s@) == created.spec_bytes().subrange(0, 10)),
{
    proof {
        lemma_str_bytes(created);
    }
    let n = created.as_bytes().len();
    if n < 10 {
        return Ok(created.to_owned());
    }
    if created.is_char_boundary(10) {
        Ok(substr(created, 0, 10).to_owned())
    } else {
        Err(SliceFault)
    }
}

/// The check column for a bookmark: `OK` for a reachable link, else the
/// status or failure text; empty where it was not checked.
pub open spec fn check_column(result: Option<(bool, Seq<char>)>) -> Seq<char> {
    match result {
        Some((true, _)) => "OK"@,
        Some((false, code)) => code,
        None => Seq::empty(),
    }
}

pub fn check_status_text(result: Option<&(bool, String)>) -> (r: String)
    ensures
        r@ == check_column(
            match result {
                Some(p) => Some((p.0, p.1@)),
                None => None,
            },
        ),
{
    match result {
        Some(p) => if p.0 {
            "OK".to_owned()
        } else {
            p.1.as_str().to_owned()
        },
        None => String::new(),
    }
}

/// Whether a bookmark with address `url` may be added when duplicates are
/// refused: not where a stored bookmark has exactly that address.
pub open spec fn has_url(b: DbBookmark, url: Seq<char>) -> bool {
    b.url matches Some(u) && u@ == url
}

pub open spec fn url_taken(existing: Seq<DbBookmark>, url: Seq<char>) -> bool {
    exists|i: int| 0 <= i < existing.len() && #[trigger] has_url(existing[i], url)
}

/// A URL counts as taken exactly when some stored bookmark, at any
/// position, has exactly that address.
pub proof fn law_url_taken(existing: Seq<DbBookmark>, url: Seq<char>)
    ensures
        forall|i: int|
            0 <= i < existing.len() && (#[trigger] existing[i]).url is Some && existing[i].url->0@ == url
                ==> url_taken(existing, url),
        url_taken(existing, url) ==> exists|i: int|
            0 <= i < existing.len() && (#[trigger] existing[i]).url is Some && existing[i].url->0@ == url,
{
    assert forall|i: int|
        0 <= i < existing.len() && (#[trigger] existing[i]).url is Some && existing[i].url->0@ == url
            implies url_taken(existing, url) by {
        assert(has_url(existing[i], url));
    }
}

pub fn is_duplicate_url(existing: &Vec<DbBookmark>, url: &str) -> (r: bool)
    ensures
        r == url_taken(existing@, url@),
{
    let mut i: usize = 0;
    while i < existing.len()
        invariant
            i <= existing@.len(),
            forall|j: int| 0 <= j < i ==> !#[trigger] has_url(existing@[j], url@),
        decreases existing@.len() - i,
    {
        match &existing[i].url {
            Some(u) => if str_eq(u.as_str(), url) {
                assert(has_url(existing@[i as int], url@));
                return true;
            },
            None => {},
        }
        i += 1;
    }
    false
}

/// The folder under the pointer while dragging: the row at `index` of the
/// visible tree where it is a folder, else none (0).
pub open spec fn drop_target_at(order: Seq<(i64, i32)>, index: int) -> i32 {
    if 0 <= index < order.len() && order[index].1 == 0 {
        order[index].0 as i32
    } else {
        0
    }
}

pub fn drop_target(order: &Vec<(i64, i32)>, index: usize) -> (r: i32)
    ensures
        r == drop_target_at(order@, index as int),
{
    if index < order.len() && order[index].1 == 0 {
        #[verifier::truncate]
        (order[index].0 as i32)
    } else {
        0
    }
}

/// A drop moves an entry only onto another, real folder.
pub fn drop_allowed(drag_id: i32, target_id: i32) -> (r: bool)
    ensures
        r == (drag_id != 0 && target_id != 0 && drag_id != target_id),
{
    !(drag_id == 0 || target_id == 0 || drag_id == target_id)
}

// ── Firefox profiles ───────────────────────────────────────────────────────

/// `p` with every `/` turned into `\`.
pub open spec fn backslashed(p: Seq<char>) -> Seq<char> {
    p.map_values(|c: char| if c == '/' { '\\' } else { c })
}

/// A profile section being read: its path, whether it is relative to the
/// browser's folder, whether it is the default; and the places files of the
/// sections read so far, each with its default flag.
pub struct IniState {
    pub path: Seq<char>,
    pub relative: bool,
    pub default: bool,
    pub found: Seq<(Seq<char>, bool)>,
}

pub open spec fn ini_start() -> IniState {
    IniState { path: Seq::empty(), relative: false, default: false, found: Seq::empty() }
}

/// The places file a finished section names, if it names a path.
pub open spec fn section_end(st: IniState, base: Seq<char>) -> IniState {
    let found = if st.path.len() > 0 {
        let full = if st.relative {
            base + "\\"@ + backslashed(st.path)
        } else {
            st.path
        };
        st.found.push((full + "\\places.sqlite"@, st.default))
    } else {
        st.found
    };
    IniState { path: Seq::empty(), relative: false, default: false, found }
}

/// One trimmed line of `profiles.ini`.
pub open spec fn ini_line(st: IniState, t: Seq<char>, base: Seq<char>) -> IniState {
    if t.len() > 0 && t[0] == '[' {
        section_end(st, base)
    } else if t.len() >= 5 && t.subrange(0, 5) == "Path="@ {
        IniState { path: str_trim(t.subrange(5, t.len() as int)), ..st }
    } else if t == "Default=1"@ {
        IniState { default: true, ..st }
    } else if t == "IsRelative=1"@ {
        IniState { relative: true, ..st }
    } else {
        st
    }
}

pub open spec fn ini_lines(lines: Seq<Seq<u8>>, base: Seq<char>) -> IniState
    decreases lines.len(),
{
    if lines.len() == 0 {
        ini_start()
    } else {
        ini_line(ini_lines(lines.drop_last(), base), str_trim(decode_utf8(lines.last())), base)
    }
}

/// The places files `profiles.ini` names, in order, each with its default
/// flag (the end of the file closes the last section).
pub open spec fn gecko_candidates(ini: Seq<u8>, base: Seq<char>) -> Seq<(Seq<char>, bool)> {
    section_end(ini_lines(crate::text::lines_of(ini), base), base).found
}

fn backslash_path(p: &str) -> (r: String)
    ensures
        r@ == backslashed(p@),
{
    let n = p.unicode_len();
    let mut out = String::new();
    let mut i: usize = 0;
    while i < n
        invariant
            n == p@.len(),
            i <= n,
            out@ == backslashed(p@.subrange(0, i as int)),
        decreases n - i,
    {
        let c = p.get_char(i);
        let d = if c == '/' {
            '\\'
        } else {
            c
        };
        let ds = char_string(d);
        out.append(ds.as_str());
        i += 1;
        assert(out@ =~= backslashed(p@.subrange(0, i as int)));
    }
    assert(p@.subrange(0, n as int) =~= p@);
    out
}

pub open spec fn cand_views(v: Seq<(String, bool)>) -> Seq<(Seq<char>, bool)> {
    v.map_values(|c: (String, bool)| (c.0@, c.1))
}

fn finish_section(path: &mut String, relative: &mut bool, default: &mut bool, found: &mut Vec<(String, bool)>, base: &str)
    ensures
        ({
            let st = section_end(
                IniState { path: old(path)@, relative: *old(relative), default: *old(default), found: cand_views(old(found)@) },
                base@,
            );
            &&& final(path)@ == st.path
            &&& *final(relative) == st.relative
            &&& *final(default) == st.default
            &&& cand_views(final(found)@) == st.found
        }),
{
    if path.as_str().unicode_len() > 0 {
        let mut full = if *relative {
            let mut f = String::from_str(base);
            f.append("\\");
            let b = backslash_path(path.as_str());
            f.append(b.as_str());
            f
        } else {
            path.as_str().to_owned()
        };
        full.append("\\places.sqlite");
        let ghost fv = full@;
        let ghost before = cand_views(found@);
        found.push((full, *default));
        assert(cand_views(found@) =~= before.push((fv, *old(default))));
    }
    *path = String::new();
    *relative = false;
    *default = false;
}

/// The places files named by the text of `profiles.ini` under the browser
/// folder `base` (see [`ini_line`]).
pub fn gecko_places_candidates(ini: &str, base: &str) -> (r: Vec<(String, bool)>)
    ensures
        cand_views(r@) == gecko_candidates(ini.spec_bytes(), base@),
{
    let lines = crate::text::split_lines(ini);
    let ghost ls = crate::text::lines_of(ini.spec_bytes());
    let mut path = String::new();
    let mut relative = false;
    let mut default = false;
    let mut found: Vec<(String, bool)> = Vec::new();
    assert(ls.take(0) =~= Seq::<Seq<u8>>::empty());
    assert(cand_views(found@) =~= Seq::<(Seq<char>, bool)>::empty());
    let mut i: usize = 0;
    while i < lines.len()
        invariant
            crate::text::str_bytes_seq(lines@) == ls,
            i <= lines@.len(),
            ({
                let st = ini_lines(ls.take(i as int), base@);
                &&& path@ == st.path
                &&& relative == st.relative
                &&& default == st.default
                &&& cand_views(found@) == st.found
            }),
        decreases lines@.len() - i,
    {
        let line = lines[i];
        proof {
            assert(ls[i as int] == line.spec_bytes());
            encode_utf8_decode_utf8(line@);
            assert(ls.take(i + 1).drop_last() =~= ls.take(i as int));
        }
        let t = trim(line);
        let n = t.unicode_len();
        let prefix = "Path=";
        proof {
            reveal_strlit("Path=");
        }
        if n > 0 && t.get_char(0) == '[' {
            finish_section(&mut path, &mut relative, &mut default, &mut found, base);
        } else if starts_with_str(t, prefix) {
            let rest = t.substring_char(5, n);
            path = trim(rest).to_owned();
        } else if str_eq(t, "Default=1") {
            default = true;
        } else if str_eq(t, "IsRelative=1") {
            relative = true;
        }
        i += 1;
    }
    assert(ls.take(i as int) =~= ls);
    finish_section(&mut path, &mut relative, &mut default, &mut found, base);
    found
}

/// Which candidate is taken, given which exist: the first existing one,
/// unless a later existing default follows a first that is not the default.
pub open spec fn pick_places(cands: Seq<(Seq<char>, bool)>, exists: Seq<bool>) -> Option<(Seq<char>, bool)>
    decreases cands.len(),
{
    if cands.len() == 0 {
        None
    } else {
        let best = pick_places(cands.drop_last(), exists);
        let i = cands.len() - 1;
        if !exists[i] {
            best
        } else {
            match best {
                None => Some(cands[i]),
                Some((p, false)) => if cands[i].1 {
                    Some((cands[i].0, true))
                } else {
                    best
                },
                _ => best,
            }
        }
    }
}

pub fn choose_places(cands: &Vec<(String, bool)>, exists: &Vec<bool>) -> (r: Option<String>)
    requires
        exists@.len() == cands@.len(),
    ensures
        match pick_places(cand_views(cands@), exists@) {
            Some((p, _)) => r matches Some(s) && s@ == p,
            None => r is None,
        },
{
    let ghost cv = cand_views(cands@);
    let mut best: Option<(String, bool)> = None;
    let mut i: usize = 0;
    assert(cv.take(0) =~= Seq::<(Seq<char>, bool)>::empty());
    while i < cands.len()
        invariant
            cv == cand_views(cands@),
            exists@.len() == cands@.len(),
            i <= cands@.len(),
            match pick_places(cv.take(i as int), exists@) {
                Some((p, d)) => best matches Some((s, bd)) && s@ == p && bd == d,
                None => best is None,
            },
        decreases cands@.len() - i,
    {
        assert(cv.take(i + 1).drop_last() =~= cv.take(i as int));
        let (ref p, d) = cands[i];
        if exists[i] {
            match &best {
                None => {
                    best = Some((p.as_str().to_owned(), d));
                },
                Some((_, false)) => {
                    if d {
                        best = Some((p.as_str().to_owned(), true));
                    }
                },
                _ => {},
            }
        }
        i += 1;
    }
    assert(cv.take(i as int) =~= cv);
    match best {
        Some((p, _)) => Some(p),
        None => None,
    }
}

// ── Visible tree ───────────────────────────────────────────────────────────

/// The folders shown below `parent`, in list order, each followed by its own
/// visible folders where it is expanded; `fuel` bounds the depth.
pub open spec fn tree_order(fs: Seq<DbFolder>, expanded: Set<i64>, parent: Option<i64>, fuel: nat) -> Seq<(i64, i32)>
    decreases fuel, 0nat,
{
    if fuel == 0 {
        Seq::empty()
    } else {
        kids_order(fs, expanded, parent, (fuel - 1) as nat, 0)
    }
}

pub open spec fn kids_order(fs: Seq<DbFolder>, expanded: Set<i64>, parent: Option<i64>, fuel: nat, i: nat) -> Seq<(i64, i32)>
    decreases fuel, fs.len() + 1 - i,
{
    if i >= fs.len() {
        Seq::empty()
    } else if fs[i as int].parent_id == parent {
        let f = fs[i as int];
        seq![(f.id, 0i32)] + (if expanded.contains(f.id) {
            tree_order(fs, expanded, Some(f.id), fuel)
        } else {
            Seq::empty()
        }) + kids_order(fs, expanded, parent, fuel, i + 1)
    } else {
        kids_order(fs, expanded, parent, fuel, i + 1)
    }
}

fn walk_kids(fs: &Vec<DbFolder>, expanded: &HashSet<i64>, parent: Option<i64>, fuel: usize, out: &mut Vec<(i64, i32)>)
    ensures
        final(out)@ == old(out)@ + kids_order(fs@, expanded@, parent, fuel as nat, 0),
    decreases fuel,
{
    broadcast use vstd::std_specs::hash::group_hash_axioms;

    let ghost start = out@;
    let mut i: usize = 0;
    while i < fs.len()
        invariant
            i <= fs@.len(),
            out@ + kids_order(fs@, expanded@, parent, fuel as nat, i as nat) == start + kids_order(
                fs@,
                expanded@,
                parent,
                fuel as nat,
                0,
            ),
        decreases fs@.len() - i,
    {
        let f = &fs[i];
        let ghost before = out@;
        if f.parent_id == parent {
            out.push((f.id, 0));
            if expanded.contains(&f.id) {
                if fuel > 0 {
                    walk_kids(fs, expanded, Some(f.id), fuel - 1, out);
                }
            }
            assert(out@ =~= before + seq![(f.id, 0i32)] + (if expanded@.contains(f.id) {
                tree_order(fs@, expanded@, Some(f.id), fuel as nat)
            } else {
                Seq::empty()
            }));
        }
        i += 1;
        assert(out@ + kids_order(fs@, expanded@, parent, fuel as nat, i as nat) =~= start + kids_order(
            fs@,
            expanded@,
            parent,
            fuel as nat,
            0,
        ));
    }
    assert(kids_order(fs@, expanded@, parent, fuel as nat, i as nat) =~= Seq::<(i64, i32)>::empty());
}

/// The visible tree rows from the root, as (id, 0) for folders, for hit
/// tests while dragging. The depth is bounded by the number of folders,
/// which a tree without cycles never reaches.
pub fn collect_tree_order(all: &Vec<DbFolder>, expanded: &HashSet<i64>) -> (r: Vec<(i64, i32)>)
    requires
        all@.len() < usize::MAX,
    ensures
        r@ == tree_order(all@, expanded@, None, (all@.len() + 1) as nat),
{
    let mut out: Vec<(i64, i32)> = Vec::new();
    walk_kids(all, expanded, None, all.len(), &mut out);
    assert(out@ =~= tree_order(all@, expanded@, None, (all@.len() + 1) as nat));
    out
}

// ── Favicon work list ──────────────────────────────────────────────────────

/// The (lower-cased) host of a bookmark's address, if it has one.
pub open spec fn bookmark_domain(b: BookmarkView) -> Option<Seq<char>> {
    match b.url {
        Some(u) => {
            let h = host_bytes(utf8(str_trim(u)));
            if h.len() == 0 {
                None
            } else {
                Some(str_lowercase(decode_utf8(h)))
            }
        },
        None => None,
    }
}

/// The favicon jobs so far: one per host (its first bookmark, the ids of all
/// its bookmarks, the host), and one per bookmark without a host.
pub struct JobState {
    pub groups: Seq<(BookmarkView, Seq<i64>, Seq<char>)>,
    pub loose: Seq<(BookmarkView, Seq<i64>)>,
}

/// The index of the group for host `d`.
pub open spec fn group_of(groups: Seq<(BookmarkView, Seq<i64>, Seq<char>)>, d: Seq<char>) -> Option<int>
    decreases groups.len(),
{
    if groups.len() == 0 {
        None
    } else {
        match group_of(groups.drop_last(), d) {
            Some(k) => Some(k),
            None => if groups.last().2 == d {
                Some(groups.len() - 1)
            } else {
                None
            },
        }
    }
}

pub open spec fn job_step(st: JobState, b: BookmarkView) -> JobState {
    match bookmark_domain(b) {
        Some(d) => match group_of(st.groups, d) {
            Some(k) => JobState {
                groups: st.groups.update(k, (st.groups[k].0, st.groups[k].1.push(b.id), d)),
                loose: st.loose,
            },
            None => JobState { groups: st.groups.push((b, seq![b.id], d)), loose: st.loose },
        },
        None => JobState { groups: st.groups, loose: st.loose.push((b, seq![b.id])) },
    }
}

pub open spec fn job_steps(bms: Seq<BookmarkView>) -> JobState
    decreases bms.len(),
{
    if bms.len() == 0 {
        JobState { groups: Seq::empty(), loose: Seq::empty() }
    } else {
        job_step(job_steps(bms.drop_last()), bms.last())
    }
}

/// The favicon jobs for `bms`: the host groups, then the bookmarks without a
/// host.
pub open spec fn favicon_jobs(bms: Seq<BookmarkView>) -> Seq<(BookmarkView, Seq<i64>)> {
    let st = job_steps(bms);
    st.groups.map_values(|g: (BookmarkView, Seq<i64>, Seq<char>)| (g.0, g.1)) + st.loose
}

pub open spec fn job_views(v: Seq<(DbBookmark, Vec<i64>)>) -> Seq<(BookmarkView, Seq<i64>)> {
    v.map_values(|j: (DbBookmark, Vec<i64>)| (j.0@, j.1@))
}

pub open spec fn group_views(v: Seq<(DbBookmark, Vec<i64>, String)>) -> Seq<(BookmarkView, Seq<i64>, Seq<char>)> {
    v.map_values(|j: (DbBookmark, Vec<i64>, String)| (j.0@, j.1@, j.2@))
}

proof fn lemma_group_of(groups: Seq<(BookmarkView, Seq<i64>, Seq<char>)>, d: Seq<char>)
    ensures
        match group_of(groups, d) {
            Some(k) => 0 <= k < groups.len() && groups[k].2 == d && forall|j: int| 0 <= j < k ==> groups[j].2 != d,
            None => forall|j: int| 0 <= j < groups.len() ==> groups[j].2 != d,
        },
    decreases groups.len(),
{
    if groups.len() > 0 {
        lemma_group_of(groups.drop_last(), d);
        assert forall|j: int| 0 <= j < groups.len() - 1 implies groups.drop_last()[j] == groups[j] by {}
    }
}

/// The ids the jobs carry, one job after the other.
pub open spec fn job_ids(jobs: Seq<(BookmarkView, Seq<i64>)>) -> Seq<i64>
    decreases jobs.len(),
{
    if jobs.len() == 0 {
        Seq::empty()
    } else {
        job_ids(jobs.drop_last()) + jobs.last().1
    }
}

/// The ids the host groups carry, one group after the other.
pub open spec fn group_ids(groups: Seq<(BookmarkView, Seq<i64>, Seq<char>)>) -> Seq<i64>
    decreases groups.len(),
{
    if groups.len() == 0 {
        Seq::empty()
    } else {
        group_ids(groups.drop_last()) + groups.last().1
    }
}

pub open spec fn state_ids(st: JobState) -> Multiset<i64> {
    group_ids(st.groups).to_multiset().add(job_ids(st.loose).to_multiset())
}

proof fn lemma_group_ids_update(
    groups: Seq<(BookmarkView, Seq<i64>, Seq<char>)>,
    k: int,
    g: (BookmarkView, Seq<i64>, Seq<char>),
    x: i64,
)
    requires
        0 <= k < groups.len(),
        g.1 == groups[k].1.push(x),
    ensures
        group_ids(groups.update(k, g)).to_multiset() == group_ids(groups).to_multiset().insert(x),
    decreases groups.len(),
{
    broadcast use vstd::seq_lib::group_to_multiset_ensures, vstd::multiset::group_multiset_axioms;

    let u = groups.update(k, g);
    let init = groups.drop_last();
    vstd::seq_lib::lemma_multiset_commutative(group_ids(init), groups.last().1);
    if k == groups.len() - 1 {
        assert(u.drop_last() =~= init);
        vstd::seq_lib::lemma_multiset_commutative(group_ids(init), g.1);
        assert(group_ids(u).to_multiset() =~= group_ids(groups).to_multiset().insert(x));
    } else {
        assert(u.drop_last() =~= init.update(k, g));
        lemma_group_ids_update(init, k, g, x);
        vstd::seq_lib::lemma_multiset_commutative(group_ids(init.update(k, g)), groups.last().1);
        assert(group_ids(u).to_multiset() =~= group_ids(groups).to_multiset().insert(x));
    }
}

proof fn lemma_job_step_ids(st: JobState, b: BookmarkView)
    ensures
        state_ids(job_step(st, b)) == state_ids(st).insert(b.id),
{
    broadcast use vstd::seq_lib::group_to_multiset_ensures, vstd::multiset::group_multiset_axioms;

    vstd::seq_lib::lemma_multiset_commutative(group_ids(st.groups), seq![b.id]);
    vstd::seq_lib::lemma_multiset_commutative(job_ids(st.loose), seq![b.id]);
    match bookmark_domain(b) {
        Some(d) => match group_of(st.groups, d) {
            Some(k) => {
                lemma_group_of(st.groups, d);
                lemma_group_ids_update(st.groups, k, (st.groups[k].0, st.groups[k].1.push(b.id), d), b.id);
                assert(state_ids(job_step(st, b)) =~= state_ids(st).insert(b.id));
            },
            None => {
                let gs = st.groups.push((b, seq![b.id], d));
                assert(gs.drop_last() =~= st.groups);
                assert(state_ids(job_step(st, b)) =~= state_ids(st).insert(b.id));
            },
        },
        None => {
            let ls = st.loose.push((b, seq![b.id]));
            assert(ls.drop_last() =~= st.loose);
            assert(state_ids(job_step(st, b)) =~= state_ids(st).insert(b.id));
        },
    }
}

proof fn lemma_job_steps_ids(bms: Seq<BookmarkView>)
    ensures
        state_ids(job_steps(bms)) == bms.map_values(|b: BookmarkView| b.id).to_multiset(),
    decreases bms.len(),
{
    broadcast use vstd::seq_lib::group_to_multiset_ensures, vstd::multiset::group_multiset_axioms;

    let ids = bms.map_values(|b: BookmarkView| b.id);
    if bms.len() == 0 {
        assert(state_ids(job_steps(bms)) =~= Multiset::<i64>::empty());
        assert(ids.to_multiset() =~= Multiset::<i64>::empty());
    } else {
        lemma_job_steps_ids(bms.drop_last());
        lemma_job_step_ids(job_steps(bms.drop_last()), bms.last());
        assert(ids =~= bms.drop_last().map_values(|b: BookmarkView| b.id).push(bms.last().id));
    }
}

proof fn lemma_job_ids_concat(a: Seq<(BookmarkView, Seq<i64>)>, b: Seq<(BookmarkView, Seq<i64>)>)
    ensures
        job_ids(a + b) == job_ids(a) + job_ids(b),
    decreases b.len(),
{
    if b.len() == 0 {
        assert(a + b =~= a);
        assert(job_ids(a) + Seq::<i64>::empty() =~= job_ids(a));
    } else {
        lemma_job_ids_concat(a, b.drop_last());
        assert((a + b).drop_last() =~= a + b.drop_last());
        assert(job_ids(a) + (job_ids(b.drop_last()) + b.last().1) =~= (job_ids(a) + job_ids(b.drop_last())) + b.last().1);
    }
}

proof fn lemma_group_job_ids(groups: Seq<(BookmarkView, Seq<i64>, Seq<char>)>)
    ensures
        job_ids(groups.map_values(|g: (BookmarkView, Seq<i64>, Seq<char>)| (g.0, g.1))) == group_ids(groups),
    decreases groups.len(),
{
    if groups.len() > 0 {
        lemma_group_job_ids(groups.drop_last());
        assert(groups.map_values(|g: (BookmarkView, Seq<i64>, Seq<char>)| (g.0, g.1)).drop_last()
            =~= groups.drop_last().map_values(|g: (BookmarkView, Seq<i64>, Seq<char>)| (g.0, g.1)));
    }
}

/// Each bookmark is in exactly one favicon job: the ids the jobs carry are
/// the ids of the bookmarks, each as often.
pub proof fn law_jobs_cover_bookmarks(bms: Seq<BookmarkView>)
    ensures
        job_ids(favicon_jobs(bms)).to_multiset() == bms.map_values(|b: BookmarkView| b.id).to_multiset(),
{
    broadcast use vstd::seq_lib::group_to_multiset_ensures, vstd::multiset::group_multiset_axioms;

    let st = job_steps(bms);
    let gm = st.groups.map_values(|g: (BookmarkView, Seq<i64>, Seq<char>)| (g.0, g.1));
    lemma_job_steps_ids(bms);
    lemma_job_ids_concat(gm, st.loose);
    lemma_group_job_ids(st.groups);
    vstd::seq_lib::lemma_multiset_commutative(group_ids(st.groups), job_ids(st.loose));
}

/// One favicon job per host among `bms` (the first bookmark with that host,
/// and the ids of all of them), then one per bookmark without a host. The
/// host groups come in the order the hosts first appear.
pub fn dedup_by_domain(bms: Vec<DbBookmark>) -> (r: Vec<(DbBookmark, Vec<i64>)>)
    ensures
        job_views(r@) == favicon_jobs(bms@.map_values(|b: DbBookmark| b@)),
{
    let ghost bv = bms@.map_values(|b: DbBookmark| b@);
    let mut groups: Vec<(DbBookmark, Vec<i64>, String)> = Vec::new();
    let mut loose: Vec<(DbBookmark, Vec<i64>)> = Vec::new();
    assert(bv.take(0) =~= Seq::<BookmarkView>::empty());
    assert(group_views(groups@) =~= Seq::<(BookmarkView, Seq<i64>, Seq<char>)>::empty());
    assert(job_views(loose@) =~= Seq::<(BookmarkView, Seq<i64>)>::empty());
    let mut i: usize = 0;
    while i < bms.len()
        invariant
            bv == bms@.map_values(|b: DbBookmark| b@),
            i <= bms@.len(),
            group_views(groups@) == job_steps(bv.take(i as int)).groups,
            job_views(loose@) == job_steps(bv.take(i as int)).loose,
        decreases bms@.len() - i,
    {
        let b = &bms[i];
        let ghost st = job_steps(bv.take(i as int));
        assert(bv.take(i + 1).drop_last() =~= bv.take(i as int));
        assert(bv.take(i + 1).last() == b@);
        let dom = match &b.url {
            Some(u) => extract_domain(u.as_str()),
            None => None,
        };
        match dom {
            Some(d) => {
                proof {
                    lemma_group_of(st.groups, d@);
                }
                let mut k: usize = 0;
                while k < groups.len() && !str_eq(groups[k].2.as_str(), d.as_str())
                    invariant
                        k <= groups@.len(),
                        group_views(groups@) == st.groups,
                        forall|j: int| 0 <= j < k ==> st.groups[j].2 != d@,
                    decreases groups@.len() - k,
                {
                    k += 1;
                }
                if k < groups.len() {
                    let ghost g = st.groups[k as int];
                    let mut entry = groups.remove(k);
                    entry.1.push(b.id);
                    let ghost ev = (entry.0@, entry.1@, entry.2@);
                    groups.insert(k, entry);
                    assert(group_views(groups@) =~= st.groups.update(k as int, (g.0, g.1.push(b.id), d@)));
                } else {
                    let ghost before = group_views(groups@);
                    let copy = b.duplicate();
                    let ghost cv = copy@;
                    let mut ids: Vec<i64> = Vec::new();
                    ids.push(b.id);
                    let ghost iv = ids@;
                    groups.push((copy, ids, d));
                    assert(iv =~= seq![b.id]);
                    assert(group_views(groups@) =~= before.push((cv, seq![b.id], d@)));
                }
            },
            None => {
                let ghost before = job_views(loose@);
                let copy = b.duplicate();
                let ghost cv = copy@;
                let mut ids: Vec<i64> = Vec::new();
                ids.push(b.id);
                let ghost iv = ids@;
                loose.push((copy, ids));
                assert(iv =~= seq![b.id]);
                assert(job_views(loose@) =~= before.push((cv, seq![b.id])));
            },
        }
        i += 1;
    }
    assert(bv.take(i as int) =~= bv);
    let ghost fin = job_steps(bv);
    let mut out: Vec<(DbBookmark, Vec<i64>)> = Vec::new();
    let ghost gs = group_views(groups@);
    let mut groups = groups;
    let mut j: usize = 0;
    let n = groups.len();
    while j < n
        invariant
            n == gs.len(),
            groups@.len() == n - j,
            forall|t: int| 0 <= t < n - j ==> (groups@[t].0@, groups@[t].1@, groups@[t].2@) == gs[j + t],
            job_views(out@) == gs.take(j as int).map_values(|g: (BookmarkView, Seq<i64>, Seq<char>)| (g.0, g.1)),
        decreases n - j,
    {
        let ghost old_groups = groups@;
        let g = groups.remove(0);
        assert(old_groups[0] == g);
        assert(forall|t: int| 0 <= t < groups@.len() ==> groups@[t] == old_groups[t + 1]);
        let ghost before = job_views(out@);
        let ghost gv = (g.0@, g.1@);
        assert(gv == (gs[j as int].0, gs[j as int].1));
        out.push((g.0, g.1));
        assert(job_views(out@) =~= before.push(gv));
        j += 1;
        assert(gs.take(j as int).map_values(|g: (BookmarkView, Seq<i64>, Seq<char>)| (g.0, g.1))
            =~= gs.take(j - 1).map_values(|g: (BookmarkView, Seq<i64>, Seq<char>)| (g.0, g.1)).push(gv));
    }
    assert(gs.take(n as int) =~= gs);
    let ghost head = job_views(out@);
    out.append(&mut loose);
    assert(job_views(out@) =~= head + fin.loose);
    out
}

// ── Installed browsers ─────────────────────────────────────────────────────

/// A browser whose bookmarks can be imported: its name, its kind
/// (`chromium` or `firefox`) and its bookmark file.
pub struct DetectedBrowser {
    pub name: String,
    pub kind: String,
    pub path: String,
}

/// Whether a browser with bookmark file `path` is already listed.
pub open spec fn listed(out: Seq<DetectedBrowser>, path: Seq<char>) -> bool {
    exists|i: int| 0 <= i < out.len() && #[trigger] out[i].path@ == path
}

pub open spec fn browser_views(v: Seq<DetectedBrowser>) -> Seq<(Seq<char>, Seq<char>, Seq<char>)> {
    v.map_values(|b: DetectedBrowser| (b.name@, b.kind@, b.path@))
}

pub fn is_listed(out: &Vec<DetectedBrowser>, path: &str) -> (r: bool)
    ensures
        r == listed(out@, path@),
{
    let mut i: usize = 0;
    while i < out.len()
        invariant
            i <= out@.len(),
            forall|j: int| 0 <= j < i ==> #[trigger] out@[j].path@ != path@,
        decreases out@.len() - i,
    {
        if str_eq(out[i].path.as_str(), path) {
            return true;
        }
        i += 1;
    }
    false
}

/// Lists a browser unless its bookmark file is listed already; whether it
/// was added.
pub fn add_if_new(out: &mut Vec<DetectedBrowser>, name: &str, kind: &str, path: &str) -> (added: bool)
    ensures
        added == !listed(old(out)@, path@),
        browser_views(final(out)@) == if added {
            browser_views(old(out)@).push((name@, kind@, path@))
        } else {
            browser_views(old(out)@)
        },
{
    if is_listed(out, path) {
        return false;
    }
    let ghost before = browser_views(out@);
    out.push(DetectedBrowser { name: name.to_owned(), kind: kind.to_owned(), path: path.to_owned() });
    assert(browser_views(out@) =~= before.push((name@, kind@, path@)));
    true
}

/// The first candidate that exists and is not listed yet.
pub open spec fn first_new(out: Seq<DetectedBrowser>, cands: Seq<String>, exists: Seq<bool>) -> Option<int>
    decreases cands.len(),
{
    if cands.len() == 0 {
        None
    } else {
        match first_new(out, cands.drop_last(), exists) {
            Some(i) => Some(i),
            None => if exists[cands.len() - 1] && !listed(out, cands.last()@) {
                Some(cands.len() - 1)
            } else {
                None
            },
        }
    }
}

/// A Chromium-family browser found by probing `cands` in order: listed
/// under `name` with the first candidate that exists and is not listed yet.
pub fn add_first_new(out: &mut Vec<DetectedBrowser>, name: &str, cands: &Vec<String>, exists: &Vec<bool>) -> (r: Option<usize>)
    requires
        exists@.len() == cands@.len(),
    ensures
        r matches Some(i) ==> i as int == first_new(old(out)@, cands@, exists@)->0,
        r is None <==> first_new(old(out)@, cands@, exists@) is None,
        browser_views(final(out)@) == match first_new(old(out)@, cands@, exists@) {
            Some(i) => browser_views(old(out)@).push((name@, "chromium"@, cands@[i]@)),
            None => browser_views(old(out)@),
        },
{
    let ghost o = out@;
    let mut i: usize = 0;
    assert(cands@.take(0) =~= Seq::<String>::empty());
    while i < cands.len()
        invariant
            out@ == o,
            o == old(out)@,
            exists@.len() == cands@.len(),
            i <= cands@.len(),
            first_new(o, cands@.take(i as int), exists@) is None,
        decreases cands@.len() - i,
    {
        assert(cands@.take(i + 1).drop_last() =~= cands@.take(i as int));
        proof {
            assert(forall|k: int| 0 <= k <= i ==> #[trigger] cands@.take(k) == cands@.take(i + 1).take(k));
        }
        if exists[i] && !is_listed(out, cands[i].as_str()) {
            proof {
                lemma_first_new_prefix(o, cands@, exists@, i as int + 1);
            }
            assert(first_new(o, cands@, exists@) == Some(i as int));
            let added = add_if_new(out, name, "chromium", cands[i].as_str());
            return Some(i);
        }
        i += 1;
    }
    assert(cands@.take(i as int) =~= cands@);
    None
}

proof fn lemma_first_new_prefix(out: Seq<DetectedBrowser>, cands: Seq<String>, exists: Seq<bool>, k: int)
    requires
        0 < k <= cands.len(),
        first_new(out, cands.take(k - 1), exists) is None,
        exists[k - 1] && !listed(out, cands[k - 1]@),
    ensures
        first_new(out, cands, exists) == Some(k - 1),
    decreases cands.len() - k,
{
    if k == cands.len() {
        assert(cands.drop_last() =~= cands.take(k - 1));
    } else {
        assert(cands.drop_last().take(k - 1) =~= cands.take(k - 1));
        assert(cands.drop_last()[k - 1] == cands[k - 1]);
        lemma_first_new_prefix(out, cands.drop_last(), exists, k);
    }
}

/// The index of the first `true`.
pub open spec fn first_true(flags: Seq<bool>) -> Option<int>
    decreases flags.len(),
{
    if flags.len() == 0 {
        None
    } else {
        match first_true(flags.drop_last()) {
            Some(i) => Some(i),
            None => if flags.last() {
                Some(flags.len() - 1)
            } else {
                None
            },
        }
    }
}

/// An Opera profile folder: the first of its bookmark files that exists is
/// taken (then listed only if new).
pub fn first_existing(flags: &Vec<bool>) -> (r: Option<usize>)
    ensures
        match first_true(flags@) {
            Some(i) => r == Some(i as usize),
            None => r is None,
        },
{
    let mut i: usize = 0;
    assert(flags@.take(0) =~= Seq::<bool>::empty());
    while i < flags.len()
        invariant
            i <= flags@.len(),
            first_true(flags@.take(i as int)) is None,
        decreases flags@.len() - i,
    {
        assert(flags@.take(i + 1).drop_last() =~= flags@.take(i as int));
        if flags[i] {
            proof {
                lemma_first_true_prefix(flags@, i as int + 1);
            }
            return Some(i);
        }
        i += 1;
    }
    assert(flags@.take(i as int) =~= flags@);
    None
}

proof fn lemma_first_true_prefix(flags: Seq<bool>, k: int)
    requires
        0 < k <= flags.len(),
        first_true(flags.take(k - 1)) is None,
        flags[k - 1],
    ensures
        first_true(flags) == Some(k - 1),
    decreases flags.len() - k,
{
    if k == flags.len() {
        assert(flags.drop_last() =~= flags.take(k - 1));
    } else {
        assert(flags.drop_last().take(k - 1) =~= flags.take(k - 1));
        lemma_first_true_prefix(flags.drop_last(), k);
    }
}

pub open spec fn pair_views(v: Seq<(String, String)>) -> Seq<(Seq<char>, Seq<char>)> {
    v.map_values(|p: (String, String)| (p.0@, p.1@))
}

/// The Chromium-family browsers looked for, in order, as (name, folder
/// under the application data or program folders).
pub open spec fn chromium_app_table() -> Seq<(Seq<char>, Seq<char>)> {
    seq![
        ("Google Chrome"@, "Google\\Chrome"@),
        ("Microsoft Edge"@, "Microsoft\\Edge"@),
        ("Brave"@, "BraveSoftware\\Brave-Browser"@),
        ("Vivaldi"@, "Vivaldi"@),
        ("Chromium"@, "Chromium"@),
    ]
}

/// The Gecko-family browsers looked for, in order, as (folder under the
/// roaming application data, name).
pub open spec fn gecko_app_table() -> Seq<(Seq<char>, Seq<char>)> {
    seq![
        ("Mozilla\\Firefox"@, "Mozilla Firefox"@),
        ("Waterfox"@, "Waterfox"@),
        ("LibreWolf"@, "LibreWolf"@),
        ("Pale Moon"@, "Pale Moon"@),
        ("SeaMonkey"@, "SeaMonkey"@),
    ]
}

/// Where an Opera profile keeps its bookmarks, in probing order, relative
/// to the profile folder.
pub open spec fn opera_file_table() -> Seq<Seq<char>> {
    seq!["Bookmarks"@, "Default\\Bookmarks"@, "User Data\\Default\\Bookmarks"@]
}

fn pair(a: &str, b: &str) -> (r: (String, String))
    ensures
        r.0@ == a@,
        r.1@ == b@,
{
    (a.to_owned(), b.to_owned())
}

/// The Chromium-family browsers to look for (see [`chromium_app_table`]).
pub fn chromium_apps() -> (r: Vec<(String, String)>)
    ensures
        pair_views(r@) == chromium_app_table(),
{
    let v = vec![
        pair("Google Chrome", "Google\\Chrome"),
        pair("Microsoft Edge", "Microsoft\\Edge"),
        pair("Brave", "BraveSoftware\\Brave-Browser"),
        pair("Vivaldi", "Vivaldi"),
        pair("Chromium", "Chromium"),
    ];
    assert(pair_views(v@) =~= chromium_app_table());
    v
}

/// The Gecko-family browsers to look for (see [`gecko_app_table`]).
pub fn gecko_apps() -> (r: Vec<(String, String)>)
    ensures
        pair_views(r@) == gecko_app_table(),
{
    let v = vec![
        pair("Mozilla\\Firefox", "Mozilla Firefox"),
        pair("Waterfox", "Waterfox"),
        pair("LibreWolf", "LibreWolf"),
        pair("Pale Moon", "Pale Moon"),
        pair("SeaMonkey", "SeaMonkey"),
    ];
    assert(pair_views(v@) =~= gecko_app_table());
    v
}

/// The bookmark files of an Opera profile (see [`opera_file_table`]).
pub fn opera_files() -> (r: Vec<String>)
    ensures
        r@.map_values(|s: String| s@) == opera_file_table(),
{
    let v = vec!["Bookmarks".to_owned(), "Default\\Bookmarks".to_owned(), "User Data\\Default\\Bookmarks".to_owned()];
    assert(v@.map_values(|s: String| s@) =~= opera_file_table());
    v
}

/// Where a Chromium-family browser's bookmarks may be, in probing order:
/// under the local application data, then the program folders.
pub fn chromium_candidates(local: &str, pf: &str, pf86: &str, app: &str) -> (r: Vec<String>)
    ensures
        r@.map_values(|s: String| s@) == chromium_paths(local@, app@) + chromium_paths(pf@, app@) + chromium_paths(
            pf86@,
            app@,
        ),
{
    let mut v = chromium_bookmark_paths(local, app);
    let mut b = chromium_bookmark_paths(pf, app);
    let mut c = chromium_bookmark_paths(pf86, app);
    let ghost va = v@.map_values(|s: String| s@);
    let ghost vb = b@.map_values(|s: String| s@);
    let ghost vc = c@.map_values(|s: String| s@);
    v.append(&mut b);
    v.append(&mut c);
    assert(v@.map_values(|s: String| s@) =~= va + vb + vc);
    v
}

// ── The tree view ──────────────────────────────────────────────────────────

/// A row of the tree: a folder (kind 0) or a bookmark leaf (kind 1) of an
/// expanded folder.
pub struct TreeRow {
    pub id: i32,
    pub kind: i32,
    pub title: String,
    pub url: String,
    pub depth: i32,
    pub expanded: bool,
    pub has_children: bool,
    pub selected: bool,
    pub count: i32,
}

pub struct TreeRowView {
    pub id: i32,
    pub kind: i32,
    pub title: Seq<char>,
    pub url: Seq<char>,
    pub depth: i32,
    pub expanded: bool,
    pub has_children: bool,
    pub selected: bool,
    pub count: i32,
}

impl View for TreeRow {
    type V = TreeRowView;

    open spec fn view(&self) -> TreeRowView {
        TreeRowView {
            id: self.id,
            kind: self.kind,
            title: self.title@,
            url: self.url@,
            depth: self.depth,
            expanded: self.expanded,
            has_children: self.has_children,
            selected: self.selected,
            count: self.count,
        }
    }
}

pub open spec fn tree_views(v: Seq<TreeRow>) -> Seq<TreeRowView> {
    v.map_values(|r: TreeRow| r@)
}

/// What the tree shows around its rows: the expanded folders, the open
/// folder, the selected bookmark, the bookmark count of each folder, and
/// the bookmarks of each expanded folder that could be read.
pub struct TreeContext {
    pub expanded: HashSet<i64>,
    pub active: Option<i64>,
    pub selected: Option<i64>,
    pub counts: HashMap<i64, i64>,
    pub leaves: HashMap<i64, Vec<DbBookmark>>,
}

pub open spec fn has_subfolder(fs: Seq<DbFolder>, id: i64) -> bool {
    exists|j: int| 0 <= j < fs.len() && #[trigger] fs[j].parent_id == Some(id)
}

pub open spec fn count_of(counts: Map<i64, i64>, id: i64) -> i32 {
    if counts.contains_key(id) {
        counts[id] as i32
    } else {
        0
    }
}

pub open spec fn folder_tree_row(fs: Seq<DbFolder>, f: DbFolder, cx: TreeContext, depth: int) -> TreeRowView {
    let count = count_of(cx.counts@, f.id);
    TreeRowView {
        id: f.id as i32,
        kind: 0,
        title: f.title@,
        url: Seq::empty(),
        depth: depth as i32,
        expanded: cx.expanded@.contains(f.id),
        has_children: has_subfolder(fs, f.id) || count > 0,
        selected: cx.active == Some(f.id) && cx.selected is None,
        count,
    }
}

pub open spec fn leaf_row(b: BookmarkView, cx: TreeContext, depth: int) -> TreeRowView {
    TreeRowView {
        id: b.id as i32,
        kind: 1,
        title: b.title,
        url: match b.url {
            Some(u) => u,
            None => Seq::empty(),
        },
        depth: depth as i32,
        expanded: false,
        has_children: false,
        selected: cx.selected == Some(b.id),
        count: 0,
    }
}

pub open spec fn leaves_of(cx: TreeContext, id: i64) -> Seq<BookmarkView> {
    if cx.leaves@.contains_key(id) {
        cx.leaves@[id]@.map_values(|b: DbBookmark| b@)
    } else {
        Seq::empty()
    }
}

/// The rows below `parent` at `depth`: each folder inside it in list order,
/// then (where it is expanded) its own rows and its bookmark leaves; `fuel`
/// bounds the depth.
pub open spec fn tree_rows(fs: Seq<DbFolder>, cx: TreeContext, parent: Option<i64>, depth: int, fuel: nat) -> Seq<TreeRowView>
    decreases fuel, 0nat,
{
    if fuel == 0 {
        Seq::empty()
    } else {
        tree_kid_rows(fs, cx, parent, depth, (fuel - 1) as nat, 0)
    }
}

pub open spec fn tree_kid_rows(fs: Seq<DbFolder>, cx: TreeContext, parent: Option<i64>, depth: int, fuel: nat, i: nat) -> Seq<TreeRowView>
    decreases fuel, fs.len() + 1 - i,
{
    if i >= fs.len() {
        Seq::empty()
    } else if fs[i as int].parent_id == parent {
        let f = fs[i as int];
        seq![folder_tree_row(fs, f, cx, depth)] + (if cx.expanded@.contains(f.id) {
            tree_rows(fs, cx, Some(f.id), depth + 1, fuel) + leaves_of(cx, f.id).map_values(
                |b: BookmarkView| leaf_row(b, cx, depth + 1),
            )
        } else {
            Seq::empty()
        }) + tree_kid_rows(fs, cx, parent, depth, fuel, i + 1)
    } else {
        tree_kid_rows(fs, cx, parent, depth, fuel, i + 1)
    }
}

fn has_subfolder_exec(fs: &Vec<DbFolder>, id: i64) -> (r: bool)
    ensures
        r == has_subfolder(fs@, id),
{
    let mut j: usize = 0;
    while j < fs.len()
        invariant
            j <= fs@.len(),
            forall|k: int| 0 <= k < j ==> #[trigger] fs@[k].parent_id != Some(id),
        decreases fs@.len() - j,
    {
        if fs[j].parent_id == Some(id) {
            return true;
        }
        j += 1;
    }
    false
}

fn push_leaves(bms: &Vec<DbBookmark>, cx: &TreeContext, depth: i32, out: &mut Vec<TreeRow>)
    ensures
        tree_views(final(out)@) == tree_views(old(out)@) + bms@.map_values(|b: DbBookmark| b@).map_values(
            |b: BookmarkView| leaf_row(b, *cx, depth as int),
        ),
{
    let ghost start = tree_views(out@);
    let ghost bv = bms@.map_values(|b: DbBookmark| b@);
    let mut i: usize = 0;
    while i < bms.len()
        invariant
            i <= bms@.len(),
            bv == bms@.map_values(|b: DbBookmark| b@),
            tree_views(out@) == start + bv.take(i as int).map_values(|b: BookmarkView| leaf_row(b, *cx, depth as int)),
        decreases bms@.len() - i,
    {
        let b = &bms[i];
        let ghost before = tree_views(out@);
        let row = TreeRow {
            id: #[verifier::truncate]
            (b.id as i32),
            kind: 1,
            title: b.title.as_str().to_owned(),
            url: match &b.url {
                Some(u) => u.as_str().to_owned(),
                None => String::new(),
            },
            depth,
            expanded: false,
            has_children: false,
            selected: match cx.selected {
                Some(s) => s == b.id,
                None => false,
            },
            count: 0,
        };
        let ghost rv = row@;
        out.push(row);
        assert(bv[i as int] == b@);
        assert(rv == leaf_row(bv[i as int], *cx, depth as int));
        assert(tree_views(out@) =~= before.push(rv));
        i += 1;
        assert(bv.take(i as int) =~= bv.take(i - 1).push(bv[i - 1]));
        assert(tree_views(out@) =~= start + bv.take(i as int).map_values(|b: BookmarkView| leaf_row(b, *cx, depth as int)));
    }
    assert(bv.take(i as int) =~= bv);
}

fn walk_rows(fs: &Vec<DbFolder>, cx: &TreeContext, parent: Option<i64>, depth: i32, fuel: usize, out: &mut Vec<TreeRow>)
    requires
        0 <= depth,
        depth + fuel + 1 < i32::MAX,
    ensures
        tree_views(final(out)@) == tree_views(old(out)@) + tree_kid_rows(fs@, *cx, parent, depth as int, fuel as nat, 0),
    decreases fuel,
{
    broadcast use vstd::std_specs::hash::group_hash_axioms;

    let ghost start = tree_views(out@);
    let mut i: usize = 0;
    while i < fs.len()
        invariant
            i <= fs@.len(),
            0 <= depth,
            depth + fuel + 1 < i32::MAX,
            tree_views(out@) + tree_kid_rows(fs@, *cx, parent, depth as int, fuel as nat, i as nat) == start
                + tree_kid_rows(fs@, *cx, parent, depth as int, fuel as nat, 0),
        decreases fs@.len() - i,
    {
        let f = &fs[i];
        let ghost before = tree_views(out@);
        if f.parent_id == parent {
            let count: i32 = match cx.counts.get(&f.id) {
                Some(c) => #[verifier::truncate]
                (*c as i32),
                None => 0,
            };
            let is_expanded = cx.expanded.contains(&f.id);
            let has_ch = has_subfolder_exec(fs, f.id) || count > 0;
            let row = TreeRow {
                id: #[verifier::truncate]
                (f.id as i32),
                kind: 0,
                title: f.title.as_str().to_owned(),
                url: String::new(),
                depth,
                expanded: is_expanded,
                has_children: has_ch,
                selected: match cx.active {
                    Some(a) => a == f.id && cx.selected.is_none(),
                    None => false,
                },
                count,
            };
            let ghost rv = row@;
            assert(rv == folder_tree_row(fs@, *f, *cx, depth as int));
            out.push(row);
            assert(tree_views(out@) =~= before.push(rv));
            if is_expanded {
                let ghost mid = tree_views(out@);
                if fuel > 0 {
                    walk_rows(fs, cx, Some(f.id), depth + 1, fuel - 1, out);
                }
                let ghost mid2 = tree_views(out@);
                assert(mid2 == mid + tree_rows(fs@, *cx, Some(f.id), depth + 1, fuel as nat));
                match cx.leaves.get(&f.id) {
                    Some(bms) => {
                        push_leaves(bms, cx, depth + 1, out);
                    },
                    None => {
                        assert(leaves_of(*cx, f.id) =~= Seq::<BookmarkView>::empty());
                    },
                }
                assert(tree_views(out@) =~= before + seq![rv] + (tree_rows(fs@, *cx, Some(f.id), depth + 1, fuel as nat)
                    + leaves_of(*cx, f.id).map_values(|b: BookmarkView| leaf_row(b, *cx, depth + 1))));
            } else {
                assert(tree_views(out@) =~= before + seq![rv] + Seq::<TreeRowView>::empty());
            }
        }
        i += 1;
        assert(tree_views(out@) + tree_kid_rows(fs@, *cx, parent, depth as int, fuel as nat, i as nat) =~= start
            + tree_kid_rows(fs@, *cx, parent, depth as int, fuel as nat, 0));
    }
    assert(tree_kid_rows(fs@, *cx, parent, depth as int, fuel as nat, i as nat) =~= Seq::<TreeRowView>::empty());
}

/// The rows of the tree view from the root (depth bounded by the number of
/// folders, which a tree without cycles never reaches).
pub fn build_tree_rows(fs: &Vec<DbFolder>, cx: &TreeContext) -> (r: Vec<TreeRow>)
    requires
        fs@.len() + 2 < i32::MAX,
    ensures
        tree_views(r@) == tree_rows(fs@, *cx, None, 0, (fs@.len() + 1) as nat),
{
    let mut out: Vec<TreeRow> = Vec::new();
    walk_rows(fs, cx, None, 0, fs.len(), &mut out);
    assert(tree_views(out@) =~= tree_rows(fs@, *cx, None, 0, (fs@.len() + 1) as nat));
    out
}

// ── Small texts ────────────────────────────────────────────────────────────

/// The detail pane of a bookmark: title, address, note and the date of its
/// creation time (see [`created_display`]).
pub fn detail_texts(b: &DbBookmark) -> (r: Result<(String, String, String, String), SliceFault>)
    ensures
        match r {
            Ok((t, u, n, c)) => {
                &&& t@ == b.title@
                &&& u@ == (match b.url {
                    Some(x) => x@,
                    None => Seq::empty(),
                })
                &&& n@ == (match b.note {
                    Some(x) => x@,
                    None => Seq::empty(),
                })
                &&& (match b.created {
                    Some(x) => if utf8(x@).len() < 10 {
                        c@ == x@
                    } else {
                        utf8(c@) == utf8(x@).subrange(0, 10)
                    },
                    None => c@.len() == 0,
                })
            },
            Err(_) => b.created matches Some(x) && utf8(x@).len() >= 10 && !is_char_boundary(utf8(x@), 10),
        },
{
    let created = match &b.created {
        Some(x) => match created_display(x.as_str()) {
            Ok(c) => c,
            Err(e) => {
                return Err(e);
            },
        },
        None => String::new(),
    };
    let url = match &b.url {
        Some(x) => x.as_str().to_owned(),
        None => String::new(),
    };
    let note = match &b.note {
        Some(x) => x.as_str().to_owned(),
        None => String::new(),
    };
    Ok((b.title.as_str().to_owned(), url, note, created))
}

/// The status line: the number of hits while searching, else the number of
/// bookmarks, and the database's file name.
pub open spec fn status_line(searching: bool, found: nat, total: int, db_name: Seq<char>) -> Seq<char> {
    if searching {
        "Найдено: "@ + decimal(found) + "  |  База: "@ + db_name
    } else {
        "Записей: "@ + signed_decimal(total) + "  |  База: "@ + db_name
    }
}

pub fn status_text(searching: bool, found: usize, total: i64, db_name: &str) -> (r: String)
    ensures
        r@ == status_line(searching, found as nat, total as int, db_name@),
{
    let mut s = if searching {
        let mut s = String::from_str("Найдено: ");
        let n = decimal_string(found as u64);
        s.append(n.as_str());
        s
    } else {
        let mut s = String::from_str("Записей: ");
        let n = signed_decimal_string(total);
        s.append(n.as_str());
        s
    };
    s.append("  |  База: ");
    s.append(db_name);
    s
}

/// The line above the list: the search while searching, else the open
/// folder's path (empty where no folder is open).
pub open spec fn location_line(query: Seq<char>, path: Option<Seq<char>>) -> Seq<char> {
    if query.len() > 0 {
        "Поиск: "@ + query
    } else {
        match path {
            Some(p) => p,
            None => Seq::empty(),
        }
    }
}

pub fn location_text(query: &str, path: Option<&str>) -> (r: String)
    ensures
        r@ == location_line(query@, match path {
            Some(p) => Some(p@),
            None => None,
        }),
{
    if query.unicode_len() > 0 {
        let mut s = String::from_str("Поиск: ");
        s.append(query);
        s
    } else {
        match path {
            Some(p) => p.to_owned(),
            None => String::new(),
        }
    }
}

/// The favicon progress: how many of `total` jobs are done (no more than
/// `total`), its caption, and whether loading is over (all done or
/// cancelled).
pub open spec fn progress_done(done: nat, total: nat) -> nat {
    if done < total {
        done
    } else {
        total
    }
}

pub fn favicon_progress(done: usize, total: usize, cancelled: bool) -> (r: (usize, String, bool))
    ensures
        r.0 == progress_done(done as nat, total as nat),
        r.1@ == "Favicon: "@ + decimal(r.0 as nat) + " / "@ + decimal(total as nat),
        r.2 == (r.0 >= total || cancelled),
{
    let n = if done < total {
        done
    } else {
        total
    };
    let mut s = String::from_str("Favicon: ");
    let a = decimal_string(n as u64);
    s.append(a.as_str());
    s.append(" / ");
    let b = decimal_string(total as u64);
    s.append(b.as_str());
    (n, s, n >= total || cancelled)
}

/// The pattern a search matches titles, addresses and notes with: the
/// lower-cased query anywhere.
pub fn search_pattern(query: &str) -> (r: String)
    ensures
        r@ == "%"@ + str_lowercase(query@) + "%"@,
{
    let q = to_lowercase(query);
    let mut s = String::from_str("%");
    s.append(q.as_str());
    s.append("%");
    s
}

/// The question asked before deleting the selected bookmark or folder,
/// with its title where it could be read.
pub open spec fn delete_question(bookmark: bool, title: Option<Seq<char>>) -> Seq<char> {
    if bookmark {
        match title {
            Some(t) => "Удалить ссылку «"@ + t + "»?"@,
            None => "Удалить ссылку?"@,
        }
    } else {
        match title {
            Some(t) => "Удалить папку «"@ + t + "» и всё содержимое?"@,
            None => "Удалить папку?"@,
        }
    }
}

pub fn delete_prompt(bookmark: bool, title: Option<&str>) -> (r: String)
    ensures
        r@ == delete_question(bookmark, match title {
            Some(t) => Some(t@),
            None => None,
        }),
{
    if bookmark {
        match title {
            Some(t) => {
                let mut s = String::from_str("Удалить ссылку «");
                s.append(t);
                s.append("»?");
                s
            },
            None => String::from_str("Удалить ссылку?"),
        }
    } else {
        match title {
            Some(t) => {
                let mut s = String::from_str("Удалить папку «");
                s.append(t);
                s.append("» и всё содержимое?");
                s
            },
            None => String::from_str("Удалить папку?"),
        }
    }
}

} // verus!
