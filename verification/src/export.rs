//! The files the album writes: Netscape bookmark HTML for the whole tree or
//! one folder, and a tab-separated text list.

use vstd::prelude::*;
use vstd::string::StringExecFns;
use vstd::utf8::*;
use crate::bookmarks::{split_tab, stored_title, txt_entry, txt_ops, DbBookmark, OpSpec, Parent};
use crate::markup::{esc, escaped};
use crate::text::{
    find, is_white_space, lemma_find_unique_first, lemma_trim_clean, lemma_utf8_ascii, lemma_utf8_ascii_byte,
    lemma_utf8_concat, lines_of, matches_at, strip_cr, utf8,
};

verus! {

/// A node of the store as the export reads it: its id, its folder (none,
/// or 0, at the top), its kind (`folder` or a bookmark kind), title and
/// address. The export takes the nodes ordered by title.
pub struct ExportNode {
    pub id: i64,
    pub parent: Option<i64>,
    pub kind: String,
    pub title: String,
    pub url: Option<String>,
}

/// Four spaces per level.
pub open spec fn indent(d: nat) -> Seq<char>
    decreases d,
{
    if d == 0 {
        Seq::empty()
    } else {
        indent((d - 1) as nat) + "    "@
    }
}

/// `t` with `&`, `<` and `>` written as entities.
pub open spec fn esc_chars(t: Seq<char>) -> Seq<char> {
    decode_utf8(escaped(utf8(t)))
}

pub open spec fn html_header() -> Seq<char> {
    "<!DOCTYPE NETSCAPE-Bookmark-file-1>\n<META HTTP-EQUIV=\"Content-Type\" CONTENT=\"text/html; charset=UTF-8\">\n<TITLE>Bookmarks</TITLE>\n<H1>Bookmarks</H1>\n<DL><p>\n"@
}

pub open spec fn html_footer() -> Seq<char> {
    "</DL><p>\n"@
}

/// The node stands at `level`: the top (`None`: no folder, or folder 0),
/// or directly in the folder with that id.
pub open spec fn at_level(n: ExportNode, level: Option<i64>) -> bool {
    match level {
        None => n.parent is None || n.parent == Some(0i64),
        Some(f) => n.parent == Some(f),
    }
}

/// A folder heading, which opens the folder's list.
pub open spec fn folder_open(title: Seq<char>, depth: nat) -> Seq<char> {
    indent(depth) + "<DT><H3>"@ + esc_chars(title) + "</H3>\n"@ + indent(depth) + "<DL><p>\n"@
}

/// The end of a folder's list.
pub open spec fn folder_close(depth: nat) -> Seq<char> {
    indent(depth) + "</DL><p>\n"@
}

pub open spec fn link_line(url: Seq<char>, title: Seq<char>, depth: nat) -> Seq<char> {
    indent(depth) + "<DT><A HREF=\""@ + url + "\">"@ + esc_chars(title) + "</A>\n"@
}

/// The lines for those of the first `k` nodes that stand at `level`, in
/// their order, `depth` levels in: a folder as its heading, its own list
/// (its nodes, one level deeper, while `fuel` lasts) and the list's end; a
/// bookmark with an address as a link; nothing for one without.
pub open spec fn level_html(nodes: Seq<ExportNode>, level: Option<i64>, depth: nat, fuel: nat, k: int) -> Seq<char>
    decreases fuel, k,
{
    if k <= 0 || k > nodes.len() {
        Seq::empty()
    } else {
        let rest = level_html(nodes, level, depth, fuel, k - 1);
        let n = nodes[k - 1];
        if !at_level(n, level) {
            rest
        } else if n.kind@ == "folder"@ {
            let inner = if fuel == 0 {
                Seq::empty()
            } else {
                level_html(nodes, Some(n.id), depth + 1, (fuel - 1) as nat, nodes.len() as int)
            };
            rest + folder_open(n.title@, depth) + inner + folder_close(depth)
        } else {
            match n.url {
                Some(u) => rest + link_line(u@, n.title@, depth),
                None => rest,
            }
        }
    }
}

/// How many links [`level_html`] writes.
pub open spec fn level_links(nodes: Seq<ExportNode>, level: Option<i64>, fuel: nat, k: int) -> nat
    decreases fuel, k,
{
    if k <= 0 || k > nodes.len() {
        0
    } else {
        let rest = level_links(nodes, level, fuel, k - 1);
        let n = nodes[k - 1];
        if !at_level(n, level) {
            rest
        } else if n.kind@ == "folder"@ {
            rest + if fuel == 0 {
                0
            } else {
                level_links(nodes, Some(n.id), (fuel - 1) as nat, nodes.len() as int)
            }
        } else if n.url is Some {
            rest + 1
        } else {
            rest
        }
    }
}

/// The whole tree: the top-level nodes, each folder with its own list.
pub open spec fn tree_html(nodes: Seq<ExportNode>) -> Seq<char> {
    level_html(nodes, None, 0, nodes.len(), nodes.len() as int)
}

pub open spec fn tree_links(nodes: Seq<ExportNode>) -> nat {
    level_links(nodes, None, nodes.len(), nodes.len() as int)
}

/// A count that stops at the largest `usize`.
pub open spec fn capped_count(x: int) -> int {
    if x > usize::MAX {
        usize::MAX as int
    } else {
        x
    }
}

fn push_indent(out: &mut String, d: usize)
    ensures
        final(out)@ == old(out)@ + indent(d as nat),
{
    let mut i: usize = 0;
    while i < d
        invariant
            i <= d,
            out@ == old(out)@ + indent(i as nat),
        decreases d - i,
    {
        out.append("    ");
        i += 1;
        assert(out@ =~= old(out)@ + indent(i as nat));
    }
}

fn node_here(n: &ExportNode, level: Option<i64>) -> (r: bool)
    ensures
        r == at_level(*n, level),
{
    match level {
        None => match n.parent {
            None => true,
            Some(p) => p == 0,
        },
        Some(f) => match n.parent {
            None => false,
            Some(p) => p == f,
        },
    }
}

/// Writes [`level_html`] for all nodes and counts its links into `count`.
fn write_level(
    nodes: &Vec<ExportNode>,
    level: Option<i64>,
    depth: usize,
    fuel: usize,
    out: &mut String,
    count: &mut usize,
)
    requires
        depth + fuel <= nodes@.len(),
    ensures
        final(out)@ == old(out)@ + level_html(nodes@, level, depth as nat, fuel as nat, nodes@.len() as int),
        *final(count) == capped_count(*old(count) + level_links(nodes@, level, fuel as nat, nodes@.len() as int)),
    decreases fuel,
{
    let ghost all = nodes@;
    let ghost out0 = out@;
    let ghost c0 = *count as int;
    let mut k: usize = 0;
    while k < nodes.len()
        invariant
            all == nodes@,
            depth + fuel <= all.len(),
            k <= all.len(),
            out@ == out0 + level_html(all, level, depth as nat, fuel as nat, k as int),
            *count == capped_count(c0 + level_links(all, level, fuel as nat, k as int)),
        decreases all.len() - k,
    {
        let n = &nodes[k];
        let ghost before = out@;
        let ghost cb = *count as int;
        if node_here(n, level) {
            if crate::text::str_eq(n.kind.as_str(), "folder") {
                let e = esc(n.title.as_str());
                proof {
                    encode_utf8_decode_utf8(e@);
                }
                push_indent(out, depth);
                out.append("<DT><H3>");
                out.append(e.as_str());
                out.append("</H3>\n");
                push_indent(out, depth);
                out.append("<DL><p>\n");
                assert(out@ =~= before + folder_open(n.title@, depth as nat));
                let ghost mid = out@;
                if fuel > 0 {
                    write_level(nodes, Some(n.id), depth + 1, fuel - 1, out, count);
                }
                let ghost after = out@;
                push_indent(out, depth);
                out.append("</DL><p>\n");
                assert(out@ =~= after + folder_close(depth as nat));
                assert(out@ =~= before + folder_open(n.title@, depth as nat) + (if fuel == 0 {
                    Seq::empty()
                } else {
                    level_html(all, Some(n.id), (depth + 1) as nat, (fuel - 1) as nat, all.len() as int)
                }) + folder_close(depth as nat));
            } else {
                match &n.url {
                    Some(u) => {
                        let e = esc(n.title.as_str());
                        proof {
                            encode_utf8_decode_utf8(e@);
                        }
                        push_indent(out, depth);
                        out.append("<DT><A HREF=\"");
                        out.append(u.as_str());
                        out.append("\">");
                        out.append(e.as_str());
                        out.append("</A>\n");
                        assert(out@ =~= before + link_line(u@, n.title@, depth as nat));
                        if *count < usize::MAX {
                            *count = *count + 1;
                        }
                    },
                    None => {},
                }
            }
        }
        k += 1;
        assert(out@ =~= out0 + level_html(all, level, depth as nat, fuel as nat, k as int));
    }
}

// ── What the export keeps ──────────────────────────────────────────────────

/// `part` stands somewhere in `whole`, as one piece.
pub open spec fn holds_part(whole: Seq<char>, part: Seq<char>) -> bool {
    exists|a: int| 0 <= a && a + part.len() <= whole.len() && #[trigger] whole.subrange(a, a + part.len()) == part
}

/// `n` lies directly in `level`: at the top (no folder, or folder 0) for
/// `None`, else in the folder with that id.
pub open spec fn lies_in(n: ExportNode, level: Option<i64>) -> bool {
    match level {
        None => n.parent is None || n.parent == Some(0i64),
        Some(f) => n.parent == Some(f),
    }
}

/// `chain` lists, from the top down, the folder nodes (by position in
/// `nodes`) that node `i` lies in: the first lies at the top, each next one
/// directly in the one before, and node `i` directly in the last (at the
/// top where the chain is empty).
pub open spec fn folder_chain(nodes: Seq<ExportNode>, chain: Seq<int>, i: int) -> bool {
    &&& forall|t: int| 0 <= t < chain.len() ==> 0 <= #[trigger] chain[t] < nodes.len() && nodes[chain[t]].kind@
        == "folder"@
    &&& chain.len() > 0 ==> lies_in(nodes[chain[0]], None)
    &&& forall|t: int| 0 < t < chain.len() ==> lies_in(nodes[#[trigger] chain[t]], Some(nodes[chain[t - 1]].id))
    &&& lies_in(nodes[i], chain_level(nodes, chain, chain.len() as int))
}

/// The level after the first `t` folders of the chain.
pub open spec fn chain_level(nodes: Seq<ExportNode>, chain: Seq<int>, t: int) -> Option<i64> {
    if t <= 0 {
        None
    } else {
        Some(nodes[chain[t - 1]].id)
    }
}

proof fn lemma_part_of_part(a: Seq<char>, b: Seq<char>, c: Seq<char>)
    requires
        holds_part(a, b),
        holds_part(b, c),
    ensures
        holds_part(a, c),
{
    let x = choose|x: int| 0 <= x && x + b.len() <= a.len() && #[trigger] a.subrange(x, x + b.len()) == b;
    let y = choose|y: int| 0 <= y && y + c.len() <= b.len() && #[trigger] b.subrange(y, y + c.len()) == c;
    assert(a.subrange(x + y, x + y + c.len()) =~= b.subrange(y, y + c.len()));
}

proof fn lemma_part_left(a: Seq<char>, b: Seq<char>, p: Seq<char>)
    requires
        holds_part(a, p),
    ensures
        holds_part(a + b, p),
{
    let x = choose|x: int| 0 <= x && x + p.len() <= a.len() && #[trigger] a.subrange(x, x + p.len()) == p;
    assert((a + b).subrange(x, x + p.len()) =~= a.subrange(x, x + p.len()));
}

proof fn lemma_part_end(a: Seq<char>, p: Seq<char>)
    ensures
        holds_part(a + p, p),
{
    assert((a + p).subrange(a.len() as int, (a.len() + p.len()) as int) =~= p);
}

proof fn lemma_link_in_level(nodes: Seq<ExportNode>, level: Option<i64>, depth: nat, fuel: nat, k: int, j: int)
    requires
        0 <= j < k <= nodes.len(),
        lies_in(nodes[j], level),
        nodes[j].kind@ != "folder"@,
        nodes[j].url is Some,
    ensures
        holds_part(level_html(nodes, level, depth, fuel, k), link_line(nodes[j].url->0@, nodes[j].title@, depth)),
        level_links(nodes, level, fuel, k) >= 1,
    decreases k,
{
    let rest = level_html(nodes, level, depth, fuel, k - 1);
    let whole = level_html(nodes, level, depth, fuel, k);
    let line = link_line(nodes[j].url->0@, nodes[j].title@, depth);
    if j < k - 1 {
        lemma_link_in_level(nodes, level, depth, fuel, k - 1, j);
        assert(exists|x: Seq<char>| whole == rest + x) by {
            let n = nodes[k - 1];
            if !at_level(n, level) {
                assert(whole == rest + Seq::<char>::empty());
            } else if n.kind@ == "folder"@ {
                let inner = if fuel == 0 {
                    Seq::empty()
                } else {
                    level_html(nodes, Some(n.id), depth + 1, (fuel - 1) as nat, nodes.len() as int)
                };
                assert(whole == rest + (folder_open(n.title@, depth) + inner + folder_close(depth)));
            } else {
                match n.url {
                    Some(u) => assert(whole == rest + link_line(u@, n.title@, depth)),
                    None => assert(whole == rest + Seq::<char>::empty()),
                }
            }
        }
        let x = choose|x: Seq<char>| whole == rest + x;
        lemma_part_left(rest, x, line);
    } else {
        lemma_part_end(rest, line);
    }
}

proof fn lemma_folder_in_level(nodes: Seq<ExportNode>, level: Option<i64>, depth: nat, fuel: nat, k: int, j: int)
    requires
        0 <= j < k <= nodes.len(),
        lies_in(nodes[j], level),
        nodes[j].kind@ == "folder"@,
        fuel > 0,
    ensures
        holds_part(
            level_html(nodes, level, depth, fuel, k),
            level_html(nodes, Some(nodes[j].id), depth + 1, (fuel - 1) as nat, nodes.len() as int),
        ),
        level_links(nodes, level, fuel, k) >= level_links(nodes, Some(nodes[j].id), (fuel - 1) as nat, nodes.len() as int),
    decreases k,
{
    let rest = level_html(nodes, level, depth, fuel, k - 1);
    let whole = level_html(nodes, level, depth, fuel, k);
    let inner = level_html(nodes, Some(nodes[j].id), depth + 1, (fuel - 1) as nat, nodes.len() as int);
    if j < k - 1 {
        lemma_folder_in_level(nodes, level, depth, fuel, k - 1, j);
        assert(exists|x: Seq<char>| whole == rest + x) by {
            let n = nodes[k - 1];
            if !at_level(n, level) {
                assert(whole == rest + Seq::<char>::empty());
            } else if n.kind@ == "folder"@ {
                let inn = level_html(nodes, Some(n.id), depth + 1, (fuel - 1) as nat, nodes.len() as int);
                assert(whole == rest + (folder_open(n.title@, depth) + inn + folder_close(depth)));
            } else {
                match n.url {
                    Some(u) => assert(whole == rest + link_line(u@, n.title@, depth)),
                    None => assert(whole == rest + Seq::<char>::empty()),
                }
            }
        }
        let x = choose|x: Seq<char>| whole == rest + x;
        lemma_part_left(rest, x, inner);
    } else {
        let fo = folder_open(nodes[j].title@, depth);
        lemma_part_end(rest + fo, inner);
        lemma_part_left(rest + fo + inner, folder_close(depth), inner);
    }
}

proof fn lemma_link_below(nodes: Seq<ExportNode>, i: int, chain: Seq<int>, t: int, fuel: nat)
    requires
        0 <= i < nodes.len(),
        nodes[i].kind@ != "folder"@,
        nodes[i].url is Some,
        folder_chain(nodes, chain, i),
        0 <= t <= chain.len(),
        fuel >= chain.len() - t,
    ensures
        holds_part(
            level_html(nodes, chain_level(nodes, chain, t), t as nat, fuel, nodes.len() as int),
            link_line(nodes[i].url->0@, nodes[i].title@, chain.len() as nat),
        ),
        level_links(nodes, chain_level(nodes, chain, t), fuel, nodes.len() as int) >= 1,
    decreases chain.len() - t,
{
    if t == chain.len() {
        lemma_link_in_level(nodes, chain_level(nodes, chain, t), t as nat, fuel, nodes.len() as int, i);
    } else {
        let j = chain[t];
        assert(0 <= j < nodes.len() && nodes[j].kind@ == "folder"@);
        assert(lies_in(nodes[j], chain_level(nodes, chain, t))) by {
            if t > 0 {
                assert(lies_in(nodes[chain[t]], Some(nodes[chain[t - 1]].id)));
            }
        }
        lemma_link_below(nodes, i, chain, t + 1, (fuel - 1) as nat);
        assert(chain_level(nodes, chain, t + 1) == Some(nodes[j].id));
        lemma_folder_in_level(nodes, chain_level(nodes, chain, t), t as nat, fuel, nodes.len() as int, j);
        lemma_part_of_part(
            level_html(nodes, chain_level(nodes, chain, t), t as nat, fuel, nodes.len() as int),
            level_html(nodes, Some(nodes[j].id), (t + 1) as nat, (fuel - 1) as nat, nodes.len() as int),
            link_line(nodes[i].url->0@, nodes[i].title@, chain.len() as nat),
        );
    }
}

/// Every bookmark with an address whose chain of folders reaches the top
/// level is written as a link, indented by its depth, and counted, however
/// deep it lies. (A node that can be reached at all can be reached through
/// fewer folders than there are nodes, since the shortest chain repeats
/// none.)
pub proof fn law_export_keeps_every_reachable_link(nodes: Seq<ExportNode>, i: int, chain: Seq<int>)
    requires
        0 <= i < nodes.len(),
        nodes[i].kind@ != "folder"@,
        nodes[i].url is Some,
        folder_chain(nodes, chain, i),
        chain.len() < nodes.len(),
    ensures
        holds_part(
            html_header() + tree_html(nodes) + html_footer(),
            link_line(nodes[i].url->0@, nodes[i].title@, chain.len() as nat),
        ),
        tree_links(nodes) >= 1,
        capped_count(tree_links(nodes) as int) >= 1,
{
    lemma_link_below(nodes, i, chain, 0, nodes.len());
    let line = link_line(nodes[i].url->0@, nodes[i].title@, chain.len() as nat);
    lemma_part_end(html_header(), tree_html(nodes));
    lemma_part_of_part(html_header() + tree_html(nodes), tree_html(nodes), line);
    lemma_part_left(html_header() + tree_html(nodes), html_footer(), line);
}

/// The bookmark HTML for the store's nodes (ordered by title): each folder
/// heading followed by its own list, closed after its contents; and how
/// many links it holds (stopping at the largest `usize`).
pub fn export_html_text(nodes: &Vec<ExportNode>) -> (r: (String, usize))
    ensures
        r.0@ == html_header() + tree_html(nodes@) + html_footer(),
        r.1 == capped_count(tree_links(nodes@) as int),
{
    let mut html = String::from_str(
        "<!DOCTYPE NETSCAPE-Bookmark-file-1>\n<META HTTP-EQUIV=\"Content-Type\" CONTENT=\"text/html; charset=UTF-8\">\n<TITLE>Bookmarks</TITLE>\n<H1>Bookmarks</H1>\n<DL><p>\n",
    );
    let mut count: usize = 0;
    write_level(nodes, None, 0, nodes.len(), &mut html, &mut count);
    html.append("</DL><p>\n");
    (html, count)
}

/// One folder's bookmarks as bookmark HTML (titles as they are), and how
/// many links it holds.
pub open spec fn folder_links_html(bms: Seq<DbBookmark>) -> Seq<char>
    decreases bms.len(),
{
    if bms.len() == 0 {
        Seq::empty()
    } else {
        folder_links_html(bms.drop_last()) + match bms.last().url {
            Some(u) => "    <DT><A HREF=\""@ + u@ + "\">"@ + bms.last().title@ + "</A>\n"@,
            None => Seq::empty(),
        }
    }
}

pub open spec fn with_url(bms: Seq<DbBookmark>) -> nat
    decreases bms.len(),
{
    if bms.len() == 0 {
        0
    } else {
        with_url(bms.drop_last()) + if bms.last().url is Some {
            1nat
        } else {
            0nat
        }
    }
}

pub fn folder_export_html(bms: &Vec<DbBookmark>) -> (r: (String, usize))
    ensures
        r.0@ == html_header() + folder_links_html(bms@) + html_footer(),
        r.1 == with_url(bms@),
{
    let mut html = String::from_str(
        "<!DOCTYPE NETSCAPE-Bookmark-file-1>\n<META HTTP-EQUIV=\"Content-Type\" CONTENT=\"text/html; charset=UTF-8\">\n<TITLE>Bookmarks</TITLE>\n<H1>Bookmarks</H1>\n<DL><p>\n",
    );
    let mut count: usize = 0;
    let ghost all = bms@;
    assert(all.take(0) =~= Seq::<DbBookmark>::empty());
    assert(html@ =~= html_header() + folder_links_html(all.take(0)));
    let mut i: usize = 0;
    while i < bms.len()
        invariant
            all == bms@,
            i <= all.len(),
            count <= i,
            html@ == html_header() + folder_links_html(all.take(i as int)),
            count == with_url(all.take(i as int)),
        decreases all.len() - i,
    {
        let b = &bms[i];
        let ghost before = html@;
        assert(all.take(i + 1).drop_last() =~= all.take(i as int));
        assert(all.take(i + 1).last() == *b);
        match &b.url {
            Some(u) => {
                html.append("    <DT><A HREF=\"");
                html.append(u.as_str());
                html.append("\">");
                html.append(b.title.as_str());
                html.append("</A>\n");
                count += 1;
            },
            None => {},
        }
        i += 1;
        assert(html@ =~= html_header() + folder_links_html(all.take(i as int)));
    }
    assert(all.take(i as int) =~= all);
    html.append("</DL><p>\n");
    (html, count)
}

/// `url TAB title` lines for the rows with an address, in order.
pub open spec fn txt_lines(rows: Seq<(String, Option<String>)>) -> Seq<char>
    decreases rows.len(),
{
    if rows.len() == 0 {
        Seq::empty()
    } else {
        txt_lines(rows.drop_last()) + match rows.last().1 {
            Some(u) => u@ + "\t"@ + rows.last().0@ + "\n"@,
            None => Seq::empty(),
        }
    }
}

pub open spec fn txt_count(rows: Seq<(String, Option<String>)>) -> nat
    decreases rows.len(),
{
    if rows.len() == 0 {
        0
    } else {
        txt_count(rows.drop_last()) + if rows.last().1 is Some {
            1nat
        } else {
            0nat
        }
    }
}

/// The text list for (title, address) rows, and how many lines it holds.
pub fn export_txt_text(rows: &Vec<(String, Option<String>)>) -> (r: (String, usize))
    ensures
        r.0@ == txt_lines(rows@),
        r.1 == txt_count(rows@),
{
    let mut out = String::new();
    let mut count: usize = 0;
    let ghost all = rows@;
    assert(all.take(0) =~= Seq::<(String, Option<String>)>::empty());
    let mut i: usize = 0;
    while i < rows.len()
        invariant
            all == rows@,
            i <= all.len(),
            count <= i,
            out@ == txt_lines(all.take(i as int)),
            count == txt_count(all.take(i as int)),
        decreases all.len() - i,
    {
        let row = &rows[i];
        assert(all.take(i + 1).drop_last() =~= all.take(i as int));
        assert(all.take(i + 1).last() == *row);
        match &row.1 {
            Some(u) => {
                out.append(u.as_str());
                out.append("\t");
                out.append(row.0.as_str());
                out.append("\n");
                count += 1;
            },
            None => {},
        }
        i += 1;
        assert(out@ =~= txt_lines(all.take(i as int)));
    }
    assert(all.take(i as int) =~= all);
    (out, count)
}

// ── Reading back a written text list ───────────────────────────────────────

/// A row the text list writes and reads back unchanged: where it has an
/// address, the address is not empty, holds no tab or line break, has no
/// white space at either end and does not start with `#`; the title is not
/// empty, holds no line break and has no white space at either end.
pub open spec fn txt_row_clean(row: (String, Option<String>)) -> bool {
    match row.1 {
        None => true,
        Some(url) => {
            let u = url@;
            let t = row.0@;
            &&& u.len() > 0 && !is_white_space(u[0]) && !is_white_space(u.last()) && u[0] != '#'
            &&& forall|i: int| 0 <= i < u.len() ==> #[trigger] u[i] != '\t' && u[i] != '\n'
            &&& t.len() > 0 && !is_white_space(t[0]) && !is_white_space(t.last())
            &&& forall|i: int| 0 <= i < t.len() ==> #[trigger] t[i] != '\n'
        },
    }
}

/// The bookmark steps that the rows with an address stand for.
pub open spec fn txt_written(rows: Seq<(String, Option<String>)>, folder: i64) -> Seq<OpSpec>
    decreases rows.len(),
{
    if rows.len() == 0 {
        Seq::empty()
    } else {
        let rest = txt_written(rows.drop_last(), folder);
        match rows.last().1 {
            Some(u) => rest.push(
                OpSpec::Bookmark { parent: Parent::Existing(folder), title: rows.last().0@, url: u@, note: None },
            ),
            None => rest,
        }
    }
}

/// One line without a line break inside, followed by one.
proof fn lemma_one_line(x: Seq<u8>)
    requires
        forall|k: int| 0 <= k < x.len() ==> #[trigger] x[k] != 10u8,
        x.len() == 0 || x.last() != 13u8,
    ensures
        lines_of(x + seq![10u8]) == seq![x],
{
    let nl = seq![10u8];
    let h = x + nl;
    assert(h.subrange(x.len() as int, x.len() as int + 1) =~= nl);
    assert forall|j: int| 0 <= j < x.len() implies !matches_at(h, nl, j) by {
        if matches_at(h, nl, j) {
            assert(h.subrange(j, j + 1)[0] == h[j]);
        }
    }
    lemma_find_unique_first(h, nl, x.len() as int);
    assert(h.subrange(0, x.len() as int) =~= x);
    assert(h.subrange(x.len() as int + 1, h.len() as int) =~= Seq::<u8>::empty());
    assert(strip_cr(x) == x);
    assert(lines_of(Seq::<u8>::empty()) == Seq::<Seq<u8>>::empty());
    assert(lines_of(h) == seq![strip_cr(x)] + lines_of(Seq::<u8>::empty()));
    assert(seq![x] + Seq::<Seq<u8>>::empty() =~= seq![x]);
}

/// A written line `url<TAB>title` reads back as (title, url).
proof fn lemma_txt_line(u: Seq<char>, t: Seq<char>)
    requires
        u.len() > 0 && !is_white_space(u[0]) && !is_white_space(u.last()) && u[0] != '#',
        forall|i: int| 0 <= i < u.len() ==> #[trigger] u[i] != '\t',
        t.len() > 0 && !is_white_space(t[0]) && !is_white_space(t.last()),
    ensures
        txt_entry(utf8(u + "\t"@ + t)) == Some((t, u)),
{
    reveal_strlit("\t");
    let x = u + "\t"@ + t;
    let bu = utf8(u);
    let bt = utf8(t);
    lemma_utf8_concat(u, "\t"@);
    lemma_utf8_concat(u + "\t"@, t);
    lemma_utf8_ascii("\t"@);
    assert(utf8(x) =~= bu + seq![9u8] + bt);
    vstd::utf8::encode_utf8_decode_utf8(x);
    assert(x[0] == u[0]);
    assert(x.last() == t.last());
    lemma_trim_clean(x);
    // The first tab is the one written after the address.
    assert forall|i: int| 0 <= i < u.len() implies (#[trigger] u[i] as u32) != 9u8 as u32 by {
        if u[i] as u32 == 9 {
            vstd::utf8::char_u32_cast(u[i], 9);
            vstd::utf8::char_u32_cast('\t', 9);
        }
    }
    lemma_utf8_ascii_byte(u, 9u8);
    let tab = seq![9u8];
    let h = utf8(x);
    assert(h.subrange(bu.len() as int, bu.len() as int + 1) =~= tab);
    assert forall|j: int| 0 <= j < bu.len() implies !matches_at(h, tab, j) by {
        if matches_at(h, tab, j) {
            assert(h.subrange(j, j + 1)[0] == h[j]);
            assert(h[j] == bu[j]);
        }
    }
    lemma_find_unique_first(h, tab, bu.len() as int);
    assert(h.subrange(0, bu.len() as int) =~= bu);
    assert(h.subrange(bu.len() as int + 1, h.len() as int) =~= bt);
    vstd::utf8::encode_utf8_decode_utf8(u);
    vstd::utf8::encode_utf8_decode_utf8(t);
    assert(split_tab(x) == (u, t));
    lemma_trim_clean(u);
    lemma_trim_clean(t);
}

/// The bytes of a line written for a clean row: no line break inside, and
/// no carriage return at its end.
proof fn lemma_clean_line_bytes(u: Seq<char>, t: Seq<char>)
    requires
        forall|i: int| 0 <= i < u.len() ==> #[trigger] u[i] != '\n',
        forall|i: int| 0 <= i < t.len() ==> #[trigger] t[i] != '\n',
        t.len() > 0,
        !is_white_space(t.last()),
    ensures
        ({
            let x = utf8(u + "\t"@ + t);
            &&& forall|k: int| 0 <= k < x.len() ==> #[trigger] x[k] != 10u8
            &&& x.len() > 0 && x.last() != 13u8
        }),
{
    reveal_strlit("\t");
    let s = u + "\t"@ + t;
    assert forall|i: int| 0 <= i < s.len() implies (#[trigger] s[i] as u32) != 10u8 as u32 by {
        if s[i] as u32 == 10 {
            vstd::utf8::char_u32_cast(s[i], 10);
            vstd::utf8::char_u32_cast('\n', 10);
            if i < u.len() {
                assert(s[i] == u[i]);
            } else if i > u.len() {
                assert(s[i] == t[i - u.len() - 1]);
            }
        }
    }
    lemma_utf8_ascii_byte(s, 10u8);
    let last = seq![t.last()];
    assert(s =~= s.drop_last() + last);
    lemma_utf8_concat(s.drop_last(), last);
    assert((t.last() as u32) != 13u8 as u32) by {
        if t.last() as u32 == 13 {
            assert(is_white_space(t.last()));
        }
    }
    lemma_utf8_ascii_byte(last, 13u8);
    vstd::utf8::char_is_scalar(t.last());
    assert(utf8(last).len() > 0);
    assert(utf8(s).last() == utf8(last).last());
}

/// A text list written by [`export_txt_text`] reads back, line by line, as
/// the bookmarks that were written, for rows that [`txt_row_clean`] accepts.
pub proof fn law_txt_read_back(rows: Seq<(String, Option<String>)>, folder: i64)
    requires
        forall|i: int| 0 <= i < rows.len() ==> txt_row_clean(#[trigger] rows[i]),
    ensures
        txt_ops(lines_of(utf8(txt_lines(rows))), folder) == txt_written(rows, folder),
    decreases rows.len(),
{
    if rows.len() > 0 {
        let init = rows.drop_last();
        assert forall|i: int| 0 <= i < init.len() implies txt_row_clean(#[trigger] init[i]) by {
            assert(init[i] == rows[i]);
        }
        law_txt_read_back(init, folder);
        let before = utf8(txt_lines(init));
        lemma_written_ends_line(init);
        let row = rows.last();
        assert(txt_row_clean(rows[rows.len() - 1]));
        match row.1 {
            None => {
                assert(txt_lines(rows) =~= txt_lines(init));
            },
            Some(url) => {
                let u = url@;
                let t = row.0@;
                reveal_strlit("\n");
                let line = u + "\t"@ + t;
                assert(txt_lines(rows) =~= txt_lines(init) + (line + "\n"@));
                lemma_utf8_concat(txt_lines(init), line + "\n"@);
                lemma_utf8_concat(line, "\n"@);
                lemma_utf8_ascii("\n"@);
                assert(utf8("\n"@) =~= seq![10u8]);
                lemma_clean_line_bytes(u, t);
                lemma_one_line(utf8(line));
                crate::text::lemma_lines_concat(before, utf8(line) + seq![10u8]);
                let ls = lines_of(before) + seq![utf8(line)];
                assert(ls.drop_last() =~= lines_of(before));
                lemma_txt_line(u, t);
            },
        }
    }
}

/// A written text list is empty or ends its last line.
proof fn lemma_written_ends_line(rows: Seq<(String, Option<String>)>)
    ensures
        utf8(txt_lines(rows)).len() == 0 || utf8(txt_lines(rows)).last() == 10u8,
    decreases rows.len(),
{
    if rows.len() > 0 {
        lemma_written_ends_line(rows.drop_last());
        match rows.last().1 {
            None => {},
            Some(url) => {
                reveal_strlit("\n");
                let line = url@ + "\t"@ + rows.last().0@;
                assert(txt_lines(rows) =~= txt_lines(rows.drop_last()) + (line + "\n"@));
                lemma_utf8_concat(txt_lines(rows.drop_last()), line + "\n"@);
                lemma_utf8_concat(line, "\n"@);
                lemma_utf8_ascii("\n"@);
            },
        }
    }
}

} // verus!
