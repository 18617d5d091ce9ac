//! Icon links found in a page: the `<link rel="icon">`-like tags of its
//! HTML, their addresses made absolute, raster pictures before SVG.

use vstd::prelude::*;
use vstd::string::{StringExecFns, StringSliceAdditionalSpecFns};
use vstd::utf8::*;
use crate::markup::{attr_lookup, attr_value, lower_bytes};
use vstd::string::StrSliceExecFns;
use crate::net::before_byte;
use crate::text::{
    find, find_bytes, lemma_ascii_boundary, lemma_find_unique_first, lemma_find_none, slice_from, matches_at, lemma_find_from, lemma_match_boundaries, lemma_str_bytes,
    same_bytes, substr, utf8, ascii_bytes, ascii_fold, ascii_fold_bytes, lemma_fold_keeps,
};

verus! {

// ── Making an address absolute ─────────────────────────────────────────────

pub open spec fn has_prefix(b: Seq<u8>, p: Seq<u8>) -> bool {
    b.len() >= p.len() && b.subrange(0, p.len() as int) == p
}

pub open spec fn has_suffix(b: Seq<u8>, p: Seq<u8>) -> bool {
    b.len() >= p.len() && b.subrange(b.len() - p.len(), b.len() as int) == p
}

/// The index of the last byte `c` of `b`.
pub open spec fn last_index(b: Seq<u8>, c: u8) -> Option<int>
    decreases b.len(),
{
    if b.len() == 0 {
        None
    } else if b.last() == c {
        Some(b.len() - 1)
    } else {
        last_index(b.drop_last(), c)
    }
}

proof fn lemma_last_index(b: Seq<u8>, c: u8)
    ensures
        match last_index(b, c) {
            Some(i) => 0 <= i < b.len() && b[i] == c && forall|j: int| i < j < b.len() ==> b[j] != c,
            None => forall|j: int| 0 <= j < b.len() ==> b[j] != c,
        },
    decreases b.len(),
{
    if b.len() > 0 {
        lemma_last_index(b.drop_last(), c);
        assert forall|j: int| 0 <= j < b.len() - 1 implies b.drop_last()[j] == b[j] by {}
    }
}

pub open spec fn lit(s: &str) -> Seq<u8> {
    s.spec_bytes()
}

/// `href` made absolute against the page address `base`: kept where it
/// starts with `http`; `https:` put before a `//` address; otherwise, where
/// `base` has a `://`, a `/` path goes on `https://` and the base's host,
/// and any other path on the base up to its last `/`; else kept.
pub open spec fn resolved(href: Seq<u8>, base: Seq<u8>) -> Seq<u8> {
    if has_prefix(href, seq![104u8, 116u8, 116u8, 112u8]) {
        href
    } else if has_prefix(href, seq![47u8, 47u8]) {
        seq![104u8, 116u8, 116u8, 112u8, 115u8, 58u8] + href
    } else {
        match find(base, seq![58u8, 47u8, 47u8]) {
            Some(p) => {
                let after = base.subrange(p + 3, base.len() as int);
                let host = before_byte(after, 47u8);
                if has_prefix(href, seq![47u8]) {
                    seq![104u8, 116u8, 116u8, 112u8, 115u8, 58u8, 47u8, 47u8] + host + href
                } else {
                    let dir = match last_index(base, 47u8) {
                        Some(i) => base.subrange(0, i),
                        None => base,
                    };
                    dir + seq![47u8] + href
                }
            },
            None => href,
        }
    }
}

fn bytes_prefix(b: &[u8], p: &[u8]) -> (r: bool)
    ensures
        r == has_prefix(b@, p@),
{
    if b.len() < p.len() {
        return false;
    }
    let head = vstd::slice::slice_subrange(b, 0, p.len());
    same_bytes(head, p)
}

fn append_bytes_str(out: &mut String, s: &str)
    ensures
        utf8(final(out)@) == utf8(old(out)@) + s.spec_bytes(),
{
    let ghost o = out@;
    out.append(s);
    proof {
        crate::text::lemma_utf8_concat(o, s@);
    }
}

/// `href` made absolute against `base` (see [`resolved`]).
pub fn resolve_url(href: &str, base: &str) -> (r: String)
    ensures
        utf8(r@) == resolved(href.spec_bytes(), base.spec_bytes()),
{
    let hb = href.as_bytes();
    let p_http: Vec<u8> = vec![104u8, 116u8, 116u8, 112u8];
    let p_ss: Vec<u8> = vec![47u8, 47u8];
    let p_s: Vec<u8> = vec![47u8];
    assert(p_http@ =~= seq![104u8, 116u8, 116u8, 112u8]);
    assert(p_ss@ =~= seq![47u8, 47u8]);
    assert(p_s@ =~= seq![47u8]);
    let l_https = "https:";
    let l_https2 = "https://";
    let l_slash = "/";
    proof {
        reveal_strlit("https:");
        reveal_strlit("https://");
        reveal_strlit("/");
        vstd::string::is_ascii_spec_bytes(l_https);
        vstd::string::is_ascii_spec_bytes(l_https2);
        vstd::string::is_ascii_spec_bytes(l_slash);
    }
    assert(l_https.spec_bytes() =~= seq![104u8, 116u8, 116u8, 112u8, 115u8, 58u8]);
    assert(l_https2.spec_bytes() =~= seq![104u8, 116u8, 116u8, 112u8, 115u8, 58u8, 47u8, 47u8]);
    assert(l_slash.spec_bytes() =~= seq![47u8]);
    if bytes_prefix(hb, p_http.as_slice()) {
        return href.to_owned();
    }
    if bytes_prefix(hb, p_ss.as_slice()) {
        let mut out = String::new();
        append_bytes_str(&mut out, l_https);
        append_bytes_str(&mut out, href);
        assert(utf8(out@) =~= seq![104u8, 116u8, 116u8, 112u8, 115u8, 58u8] + href.spec_bytes());
        return out;
    }
    let sep: Vec<u8> = vec![58u8, 47u8, 47u8];
    assert(sep@ =~= seq![58u8, 47u8, 47u8]);
    proof {
        lemma_str_bytes(base);
        lemma_find_from(base.spec_bytes(), sep@, 0);
    }
    let bb = base.as_bytes();
    match find_bytes(bb, sep.as_slice()) {
        Some(p) => {
            proof {
                assert(ascii_bytes(sep@));
                lemma_match_boundaries(base.spec_bytes(), sep@, p as int);
            }
            assert(p + 3 <= bb.len());
            let after = substr(base, p + 3, bb.len());
            let mut out = String::new();
            if bytes_prefix(hb, p_s.as_slice()) {
                let host = crate::net::before_byte_str(after, 47u8);
                append_bytes_str(&mut out, l_https2);
                append_bytes_str(&mut out, host);
                append_bytes_str(&mut out, href);
                assert(utf8(out@) =~= seq![104u8, 116u8, 116u8, 112u8, 115u8, 58u8, 47u8, 47u8]
                    + host.spec_bytes() + href.spec_bytes());
            } else {
                let mut k: usize = bb.len();
                assert(bb@.subrange(0, k as int) =~= bb@);
                while k > 0 && bb[k - 1] != 47u8
                    invariant
                        k <= bb@.len(),
                        last_index(bb@, 47u8) == last_index(bb@.subrange(0, k as int), 47u8),
                    decreases k,
                {
                    assert(bb@.subrange(0, k as int).drop_last() =~= bb@.subrange(0, k - 1));
                    k -= 1;
                }
                let dir: &str = if k > 0 {
                    proof {
                        assert(bb@.subrange(0, k as int).last() == bb@[k - 1]);
                        lemma_ascii_boundary(bb@, k - 1);
                    }
                    substr(base, 0, k - 1)
                } else {
                    base
                };
                assert(dir.spec_bytes() == match last_index(bb@, 47u8) {
                    Some(i) => bb@.subrange(0, i),
                    None => bb@,
                });
                append_bytes_str(&mut out, dir);
                append_bytes_str(&mut out, l_slash);
                append_bytes_str(&mut out, href);
                assert(utf8(out@) =~= dir.spec_bytes() + seq![47u8] + href.spec_bytes());
            }
            out
        },
        None => href.to_owned(),
    }
}

// ── Icon tags ──────────────────────────────────────────────────────────────

/// The smaller of two optional positions.
pub open spec fn min_opt(a: Option<int>, b: Option<int>) -> Option<int> {
    match (a, b) {
        (None, _) => b,
        (_, None) => a,
        (Some(x), Some(y)) => Some(
            if y < x {
                y
            } else {
                x
            },
        ),
    }
}

/// The first position in `sub` of any `rel` value that marks an icon link.
pub open spec fn earliest_icon(sub: Seq<u8>) -> Option<int> {
    min_opt(
        min_opt(
            min_opt(
                min_opt(
                    min_opt(find(sub, utf8("rel=\"icon\""@)), find(sub, utf8("rel=\"shortcut icon\""@))),
                    find(sub, utf8("rel='icon'"@)),
                ),
                find(sub, utf8("rel='shortcut icon'"@)),
            ),
            find(sub, utf8("rel=\"apple-touch-icon\""@)),
        ),
        find(sub, utf8("rel='apple-touch-icon'"@)),
    )
}

pub proof fn lemma_earliest(sub: Seq<u8>)
    ensures
        earliest_icon(sub) matches Some(q) ==> 0 <= q && q + 1 <= sub.len(),
{
    reveal_strlit("rel=\"icon\"");
    reveal_strlit("rel=\"shortcut icon\"");
    reveal_strlit("rel='icon'");
    reveal_strlit("rel='shortcut icon'");
    reveal_strlit("rel=\"apple-touch-icon\"");
    reveal_strlit("rel='apple-touch-icon'");
    vstd::string::is_ascii_spec_bytes("rel=\"icon\"");
    vstd::string::is_ascii_spec_bytes("rel=\"shortcut icon\"");
    vstd::string::is_ascii_spec_bytes("rel='icon'");
    vstd::string::is_ascii_spec_bytes("rel='shortcut icon'");
    vstd::string::is_ascii_spec_bytes("rel=\"apple-touch-icon\"");
    vstd::string::is_ascii_spec_bytes("rel='apple-touch-icon'");
    lemma_find_from(sub, utf8("rel=\"icon\""@), 0);
    lemma_find_from(sub, utf8("rel=\"shortcut icon\""@), 0);
    lemma_find_from(sub, utf8("rel='icon'"@), 0);
    lemma_find_from(sub, utf8("rel='shortcut icon'"@), 0);
    lemma_find_from(sub, utf8("rel=\"apple-touch-icon\""@), 0);
    lemma_find_from(sub, utf8("rel='apple-touch-icon'"@), 0);
}

/// One of the six `rel` marks of an icon link starts at `p` in `sub`:
/// `icon`, `shortcut icon` or `apple-touch-icon`, in double or single quotes.
pub open spec fn icon_mark_at(sub: Seq<u8>, p: int) -> bool {
    ||| matches_at(sub, utf8("rel=\"icon\""@), p)
    ||| matches_at(sub, utf8("rel=\"shortcut icon\""@), p)
    ||| matches_at(sub, utf8("rel='icon'"@), p)
    ||| matches_at(sub, utf8("rel='shortcut icon'"@), p)
    ||| matches_at(sub, utf8("rel=\"apple-touch-icon\""@), p)
    ||| matches_at(sub, utf8("rel='apple-touch-icon'"@), p)
}

/// The scan stops at the first icon mark of the text, whichever of the six
/// it is, and finds none only where the text holds none.
pub proof fn law_earliest_icon_is_first_mark(sub: Seq<u8>)
    ensures
        earliest_icon(sub) matches Some(q) ==> icon_mark_at(sub, q) && forall|p: int|
            0 <= p < q ==> !#[trigger] icon_mark_at(sub, p),
        earliest_icon(sub) is None ==> forall|p: int| 0 <= p ==> !#[trigger] icon_mark_at(sub, p),
{
    lemma_find_from(sub, utf8("rel=\"icon\""@), 0);
    lemma_find_from(sub, utf8("rel=\"shortcut icon\""@), 0);
    lemma_find_from(sub, utf8("rel='icon'"@), 0);
    lemma_find_from(sub, utf8("rel='shortcut icon'"@), 0);
    lemma_find_from(sub, utf8("rel=\"apple-touch-icon\""@), 0);
    lemma_find_from(sub, utf8("rel='apple-touch-icon'"@), 0);
}

fn min_pos(a: Option<usize>, b: Option<usize>) -> (r: Option<usize>)
    ensures
        opt_int(r) == min_opt(opt_int(a), opt_int(b)),
{
    match (a, b) {
        (None, _) => b,
        (_, None) => a,
        (Some(x), Some(y)) => Some(
            if y < x {
                y
            } else {
                x
            },
        ),
    }
}

pub open spec fn opt_int(o: Option<usize>) -> Option<int> {
    match o {
        Some(x) => Some(x as int),
        None => None,
    }
}

fn find_pos(s: &[u8], p: &str) -> (r: Option<usize>)
    ensures
        opt_int(r) == find(s@, p.spec_bytes()),
{
    find_bytes(s, p.as_bytes())
}

fn earliest_icon_in(sub: &[u8]) -> (r: Option<usize>)
    ensures
        opt_int(r) == earliest_icon(sub@),
{
    let a = find_pos(sub, "rel=\"icon\"");
    let b = find_pos(sub, "rel=\"shortcut icon\"");
    let c = find_pos(sub, "rel='icon'");
    let d = find_pos(sub, "rel='shortcut icon'");
    let e = find_pos(sub, "rel=\"apple-touch-icon\"");
    let f = find_pos(sub, "rel='apple-touch-icon'");
    min_pos(min_pos(min_pos(min_pos(min_pos(a, b), c), d), e), f)
}

/// What one icon tag gives: `Some(Some((address, is_svg)))` for a tag with
/// an `href` (made absolute; SVG where the `href` ends in `.svg`, ignoring
/// case, or the `type` is `image/svg+xml`), `Some(None)` for one without,
/// `None` where reading an attribute cuts inside a character.
pub open spec fn tag_icon(tag: Seq<u8>, base: Seq<u8>) -> Option<Option<(Seq<u8>, bool)>> {
    let lo = lower_bytes(decode_utf8(tag));
    match attr_value(tag, lo, utf8("href"@)) {
        None => None,
        Some(None) => Some(None),
        Some(Some(h)) => {
            let url = resolved(h, base);
            if has_suffix(lower_bytes(decode_utf8(h)), utf8(".svg"@)) {
                Some(Some((url, true)))
            } else {
                match attr_value(tag, lo, utf8("type"@)) {
                    None => None,
                    Some(t) => Some(Some((url, t == Some(utf8("image/svg+xml"@))))),
                }
            }
        },
    }
}

/// The scan of the page from `from` on, with the raster and SVG links found
/// so far: each step takes the earliest icon mark, the tag around it (from
/// the `<` before it to the `>` after it, or to the end of the page), and
/// goes on after the tag. `None` where a cut falls inside a character,
/// which cannot happen where `lower` is [`lower_bytes`] of the page (see
/// [`find_icon_links`]).
pub open spec fn icon_scan(
    html: Seq<u8>,
    lower: Seq<u8>,
    base: Seq<u8>,
    from: int,
    raster: Seq<Seq<u8>>,
    svg: Seq<Seq<u8>>,
) -> Option<Seq<Seq<u8>>>
    decreases lower.len() - from,
{
    if from < 0 || from > lower.len() {
        None
    } else {
        match earliest_icon(lower.subrange(from, lower.len() as int)) {
            None => Some(raster + svg),
            Some(q) => {
                proof {
                    lemma_earliest(lower.subrange(from, lower.len() as int));
                }
                let pos = from + q;
                let start = match last_index(lower.subrange(0, pos), 60u8) {
                    Some(i) => i,
                    None => 0,
                };
                let end = match find(lower.subrange(pos, lower.len() as int), seq![62u8]) {
                    Some(e) => pos + e + 1,
                    None => html.len() as int,
                };
                let next = if end > pos + 1 {
                    end
                } else {
                    pos + 1
                };
                if !(start <= end && is_char_boundary(html, start) && is_char_boundary(html, end)) {
                    None
                } else if next > lower.len() {
                    None
                } else {
                    match tag_icon(html.subrange(start, end), base) {
                        None => None,
                        Some(None) => icon_scan(html, lower, base, next, raster, svg),
                        Some(Some((u, true))) => icon_scan(html, lower, base, next, raster, svg.push(u)),
                        Some(Some((u, false))) => icon_scan(html, lower, base, next, raster.push(u), svg),
                    }
                }
            }
        }
    }
}

fn tag_icon_of(tag: &str, base: &str) -> (r: Option<Option<(String, bool)>>)
    ensures
        r is Some,
        match tag_icon(tag.spec_bytes(), base.spec_bytes()) {
            None => r is None,
            Some(None) => r == Some(None::<(String, bool)>),
            Some(Some((u, sv))) => r matches Some(Some((s, b))) && utf8(s@) == u && b == sv,
        },
{
    proof {
        encode_utf8_decode_utf8(tag@);
    }
    let lo = ascii_fold_bytes(tag.as_bytes());
    match attr_lookup(tag, lo.as_slice(), "href") {
        None => None,
        Some(None) => Some(None),
        Some(Some(h)) => {
            let url = resolve_url(h, base);
            proof {
                encode_utf8_decode_utf8(h@);
            }
            let hl = ascii_fold_bytes(h.as_bytes());
            let suffix = ".svg";
            let hlb = hl.as_slice();
            let svg_end = hlb.len() >= 4 && same_bytes(
                vstd::slice::slice_subrange(hlb, hlb.len() - 4, hlb.len()),
                suffix.as_bytes(),
            );
            proof {
                reveal_strlit(".svg");
                vstd::string::is_ascii_spec_bytes(suffix);
            }
            if svg_end {
                return Some(Some((url, true)));
            }
            match attr_lookup(tag, lo.as_slice(), "type") {
                None => None,
                Some(t) => {
                    let is_svg = match t {
                        Some(tv) => crate::text::str_eq(tv, "image/svg+xml"),
                        None => false,
                    };
                    proof {
                        match t {
                            Some(tv) => {
                                encode_utf8_decode_utf8(tv@);
                                encode_utf8_decode_utf8("image/svg+xml"@);
                            },
                            None => {},
                        }
                    }
                    Some(Some((url, is_svg)))
                },
            }
        },
    }
}

pub open spec fn string_bytes(v: Seq<String>) -> Seq<Seq<u8>> {
    v.map_values(|s: String| utf8(s@))
}

/// The icon links of a page, made absolute against `base`, raster pictures
/// first, each group in page order (see [`icon_scan`]). The `rel` marks and
/// attribute names are matched without regard to ASCII case, on the page's
/// own bytes, so every tag is cut where it was found.
pub fn find_icon_links(html: &str, base: &str) -> (r: Vec<String>)
    ensures
        icon_scan(html.spec_bytes(), lower_bytes(html@), base.spec_bytes(), 0, Seq::empty(), Seq::empty())
            == Some(string_bytes(r@)),
{
    let lower = ascii_fold_bytes(html.as_bytes());
    let lb = lower.as_slice();
    let hn = html.as_bytes().len();
    let ln = lb.len();
    let ghost hbytes = html.spec_bytes();
    let ghost lbytes = lb@;
    let ghost bbytes = base.spec_bytes();
    let ghost goal = icon_scan(hbytes, lbytes, bbytes, 0, Seq::empty(), Seq::empty());
    proof {
        lemma_str_bytes(html);
    }
    let mut raster: Vec<String> = Vec::new();
    let mut svg: Vec<String> = Vec::new();
    let mut from: usize = 0;
    assert(string_bytes(raster@) =~= Seq::<Seq<u8>>::empty());
    assert(string_bytes(svg@) =~= Seq::<Seq<u8>>::empty());
    loop
        invariant
            lb@ == lbytes,
            ln == lbytes.len(),
            lbytes == ascii_fold(hbytes),
            goal == icon_scan(html.spec_bytes(), lower_bytes(html@), base.spec_bytes(), 0, Seq::empty(), Seq::empty()),
            hbytes == html.spec_bytes(),
            valid_utf8(hbytes),
            is_char_boundary(hbytes, hbytes.len() as int),
            is_char_boundary(hbytes, 0),
            hn == hbytes.len(),
            lbytes == lower_bytes(html@),
            bbytes == base.spec_bytes(),
            from <= lbytes.len(),
            icon_scan(hbytes, lbytes, bbytes, from as int, string_bytes(raster@), string_bytes(svg@)) == goal,
        decreases lbytes.len() - from,
    {
        let sub = vstd::slice::slice_subrange(lb, from, ln);
        assert(sub@ == lbytes.subrange(from as int, lbytes.len() as int));
        match earliest_icon_in(sub) {
            None => {
                let ghost rv = string_bytes(raster@);
                let ghost sv = string_bytes(svg@);
                assert(icon_scan(hbytes, lbytes, bbytes, from as int, rv, sv) == Some(rv + sv));
                raster.append(&mut svg);
                assert(string_bytes(raster@) =~= rv + sv);
                return raster;
            },
            Some(q) => {
                proof {
                    lemma_earliest(sub@);
                }
                let pos = from + q;
                assert(pos < lbytes.len());
                let mut k: usize = pos;
                assert(lbytes.subrange(0, pos as int).subrange(0, k as int) =~= lbytes.subrange(0, pos as int));
                while k > 0 && lb[k - 1] != 60u8
                    invariant
                        lb@ == lbytes,
                        k <= pos < lbytes.len(),
                        last_index(lbytes.subrange(0, pos as int), 60u8) == last_index(lbytes.subrange(0, k as int), 60u8),
                    decreases k,
                {
                    assert(lbytes.subrange(0, k as int).drop_last() =~= lbytes.subrange(0, k - 1));
                    k -= 1;
                }
                let start: usize = if k > 0 {
                    assert(lbytes.subrange(0, k as int).last() == lb@[k - 1]);
                    proof {
                        lemma_fold_keeps(hbytes, k - 1, 60u8);
                        lemma_ascii_boundary(hbytes, k - 1);
                    }
                    k - 1
                } else {
                    0
                };
                assert(start as int == match last_index(lbytes.subrange(0, pos as int), 60u8) {
                    Some(i) => i,
                    None => 0,
                });
                let mut e: usize = pos;
                while e < lb.len() && lb[e] != 62u8
                    invariant
                        lb@ == lbytes,
                        pos <= e <= lbytes.len(),
                        forall|j: int| pos <= j < e ==> lbytes[j] != 62u8,
                    decreases lbytes.len() - e,
                {
                    e += 1;
                }
                let ghost rest = lbytes.subrange(pos as int, lbytes.len() as int);
                let end: usize = if e < lb.len() {
                    proof {
                        assert forall|j: int| 0 <= j < e - pos implies !matches_at(rest, seq![62u8], j) by {
                            assert(rest.subrange(j, j + 1)[0] == lbytes[pos + j]);
                        }
                        assert(rest.subrange(e - pos, e - pos + 1) =~= seq![62u8]);
                        lemma_find_unique_first(rest, seq![62u8], e - pos);
                        lemma_fold_keeps(hbytes, e as int, 62u8);
                        lemma_ascii_boundary(hbytes, e as int);
                    }
                    e + 1
                } else {
                    proof {
                        assert forall|j: int| 0 <= j && j + 1 <= rest.len() implies !matches_at(rest, seq![62u8], j) by {
                            assert(rest.subrange(j, j + 1)[0] == lbytes[pos + j]);
                        }
                        lemma_find_none(rest, seq![62u8]);
                    }
                    hn
                };
                let next: usize = if end > pos + 1 {
                    end
                } else {
                    pos + 1
                };
                assert(start <= end && is_char_boundary(hbytes, start as int) && is_char_boundary(hbytes, end as int));
                assert(next <= lbytes.len());
                let tag = substr(html, start, end);
                match tag_icon_of(tag, base) {
                    None => {},
                    Some(None) => {},
                    Some(Some((u, is_svg))) => {
                        let ghost uv = utf8(u@);
                        if is_svg {
                            let ghost before = string_bytes(svg@);
                            svg.push(u);
                            assert(string_bytes(svg@) =~= before.push(uv));
                        } else {
                            let ghost before = string_bytes(raster@);
                            raster.push(u);
                            assert(string_bytes(raster@) =~= before.push(uv));
                        }
                    },
                }
                from = next;
            },
        }
    }
}

} // verus!
