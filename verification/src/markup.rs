//! Pieces of HTML read and written by the bookmark files: entity escapes,
//! attribute values and element text, found on the line with its ASCII
//! capitals made small and cut from the line itself at the same positions.

use vstd::prelude::*;
use vstd::string::StringSliceAdditionalSpecFns;
use vstd::utf8::*;
use crate::text::{
    replace_all, replace_str, find, find_bytes, lemma_ascii_boundary, lemma_find_from,
    lemma_find_none, lemma_find_unique_first, lemma_str_bytes, matches_at, slice_from,
    substr, utf8, ascii_fold, ascii_fold_bytes, lemma_fold_match_end, lemma_fold_match_start,
};

verus! {

/// The UTF-8 bytes of `s` with its ASCII capitals made small, as markup
/// names and attribute names are matched: every byte keeps its position.
pub open spec fn lower_bytes(s: Seq<char>) -> Seq<u8> {
    ascii_fold(utf8(s))
}

/// Value of `attr` quoted by `q`: the text after the first `attr=q` of
/// `lower`, cut from `tag` up to the next `q`. `Some(None)`: no such
/// attribute or no closing quote; `None`: the position found in `lower` is
/// no character boundary of `tag`.
pub open spec fn attr_q(tag: Seq<u8>, lower: Seq<u8>, attr: Seq<u8>, q: u8) -> Option<Option<Seq<u8>>> {
    let needle = attr + seq![61u8, q];
    match find(lower, needle) {
        None => Some(None),
        Some(s) => {
            let vs = s + needle.len();
            if !is_char_boundary(tag, vs) {
                None
            } else {
                let rest = tag.subrange(vs, tag.len() as int);
                match find(rest, seq![q]) {
                    None => Some(None),
                    Some(e) => Some(Some(rest.subrange(0, e))),
                }
            }
        },
    }
}

/// Value of `attr`, double quotes tried before single quotes.
pub open spec fn attr_value(tag: Seq<u8>, lower: Seq<u8>, attr: Seq<u8>) -> Option<Option<Seq<u8>>> {
    match attr_q(tag, lower, attr, 34u8) {
        Some(None) => attr_q(tag, lower, attr, 39u8),
        r => r,
    }
}

pub open spec fn opt_str_bytes(r: Option<Option<&str>>) -> Option<Option<Seq<u8>>> {
    match r {
        None => None,
        Some(None) => Some(None),
        Some(Some(t)) => Some(Some(t.spec_bytes())),
    }
}

fn attr_lookup_q<'a>(tag: &'a str, lower: &[u8], attr: &str, q: u8) -> (r: Option<Option<&'a str>>)
    requires
        q < 65,
        lower@ == ascii_fold(tag.spec_bytes()),
    ensures
        opt_str_bytes(r) == attr_q(tag.spec_bytes(), lower@, attr.spec_bytes(), q),
        r is Some,
{
    let mut needle: Vec<u8> = vstd::slice::slice_to_vec(attr.as_bytes());
    needle.push(61u8);
    needle.push(q);
    assert(needle@ =~= attr.spec_bytes() + seq![61u8, q]);
    proof {
        lemma_find_from(lower@, needle@, 0);
        lemma_str_bytes(tag);
    }
    match find_bytes(lower, needle.as_slice()) {
        None => Some(None),
        Some(s) => {
            let ln = lower.len();
            assert(s + needle.len() <= ln);
            proof {
                assert(needle@[needle@.len() - 1] == q);
                lemma_fold_match_end(tag.spec_bytes(), needle@, s as int);
            }
            let vs = s + needle.len();
            match slice_from(tag, vs) {
                None => None,
                Some(rest) => {
                    let qv: Vec<u8> = vec![q];
                    assert(qv@ =~= seq![q]);
                    proof {
                        lemma_str_bytes(rest);
                        lemma_find_from(rest.spec_bytes(), seq![q], 0);
                    }
                    match find_bytes(rest.as_bytes(), qv.as_slice()) {
                        None => Some(None),
                        Some(e) => {
                            proof {
                                assert(rest.spec_bytes().subrange(e as int, e + 1)[0] == q);
                                lemma_ascii_boundary(rest.spec_bytes(), e as int);
                            }
                            Some(Some(substr(rest, 0, e)))
                        },
                    }
                },
            }
        },
    }
}

pub(crate) fn attr_lookup<'a>(tag: &'a str, lower: &[u8], attr: &str) -> (r: Option<Option<&'a str>>)
    requires
        lower@ == ascii_fold(tag.spec_bytes()),
    ensures
        opt_str_bytes(r) == attr_value(tag.spec_bytes(), lower@, attr.spec_bytes()),
        r is Some,
{
    match attr_lookup_q(tag, lower, attr, 34u8) {
        Some(None) => attr_lookup_q(tag, lower, attr, 39u8),
        r => r,
    }
}

pub open spec fn opt_string_bytes(r: Option<String>) -> Option<Seq<u8>> {
    match r {
        Some(s) => Some(utf8(s@)),
        None => None,
    }
}

/// The value of attribute `attr` in the markup `tag`, the name matched
/// without regard to ASCII case: the text after the first `attr="` (or,
/// where there is none with a closing quote, `attr='`) up to the closing
/// quote.
pub fn extract_attr(tag: &str, attr: &str) -> (r: Option<String>)
    ensures
        attr_value(tag.spec_bytes(), lower_bytes(tag@), attr.spec_bytes()) == Some(opt_string_bytes(r)),
{
    let lower = ascii_fold_bytes(tag.as_bytes());
    match attr_lookup(tag, lower.as_slice(), attr) {
        None => None,
        Some(None) => None,
        Some(Some(v)) => Some(v.to_owned()),
    }
}

/// The value of attribute `attr` in `line`, or the empty string where it is
/// missing (see [`extract_attr`]).
pub fn attr_val(line: &str, attr: &str) -> (r: String)
    ensures
        match attr_value(line.spec_bytes(), lower_bytes(line@), attr.spec_bytes()) {
            None => false,
            Some(None) => r@.len() == 0,
            Some(Some(v)) => utf8(r@) == v,
        },
{
    let lower = ascii_fold_bytes(line.as_bytes());
    match attr_lookup(line, lower.as_slice(), attr) {
        None => String::new(),
        Some(None) => String::new(),
        Some(Some(v)) => v.to_owned(),
    }
}

/// Text of the element `tag` on a line: from after the `>` that closes the
/// first `<tag` of `lower` to the first `</tag>` of `lower`, cut from `line`.
/// `Some` of the empty sequence where either is missing or they do not
/// enclose text; `None` where the cut is no character range of `line`.
pub open spec fn element_text(line: Seq<u8>, lower: Seq<u8>, tag: Seq<u8>) -> Option<Seq<u8>> {
    let open = seq![60u8] + tag;
    let close = seq![60u8, 47u8] + tag + seq![62u8];
    match (find(lower, open), find(lower, close)) {
        (Some(s), Some(e)) => match find(lower.subrange(s, lower.len() as int), seq![62u8]) {
            Some(gt) => {
                let cs = s + gt + 1;
                if cs < e {
                    if is_char_boundary(line, cs) && is_char_boundary(line, e) {
                        Some(line.subrange(cs, e))
                    } else {
                        None
                    }
                } else {
                    Some(Seq::empty())
                }
            },
            None => Some(Seq::empty()),
        },
        _ => Some(Seq::empty()),
    }
}

pub(crate) fn element_text_in<'a>(line: &'a str, lower: &[u8], tag: &str) -> (r: Option<&'a str>)
    requires
        lower@ == ascii_fold(line.spec_bytes()),
    ensures
        match element_text(line.spec_bytes(), lower@, tag.spec_bytes()) {
            None => r is None,
            Some(v) => r matches Some(t) && t.spec_bytes() == v,
        },
        r is Some,
{
    let ghost lb = lower@;
    let ghost tb = tag.spec_bytes();
    let mut open: Vec<u8> = vec![60u8];
    let mut close: Vec<u8> = vec![60u8, 47u8];
    let tv = vstd::slice::slice_to_vec(tag.as_bytes());
    let mut i: usize = 0;
    while i < tv.len()
        invariant
            tv@ == tb,
            i <= tv.len(),
            open@ == seq![60u8] + tb.subrange(0, i as int),
            close@ == seq![60u8, 47u8] + tb.subrange(0, i as int),
        decreases tv.len() - i,
    {
        open.push(tv[i]);
        close.push(tv[i]);
        i += 1;
        assert(open@ =~= seq![60u8] + tb.subrange(0, i as int));
        assert(close@ =~= seq![60u8, 47u8] + tb.subrange(0, i as int));
    }
    close.push(62u8);
    assert(open@ =~= seq![60u8] + tb);
    assert(close@ =~= seq![60u8, 47u8] + tb + seq![62u8]);
    proof {
        lemma_str_bytes(line);
    }
    let empty: &'a str = substr(line, 0, 0);
    assert(empty.spec_bytes() =~= Seq::<u8>::empty());
    let fs = find_bytes(lower, open.as_slice());
    let fe = find_bytes(lower, close.as_slice());
    match (fs, fe) {
        (Some(s), Some(e)) => {
            proof {
                lemma_find_from(lb, open@, 0);
                lemma_find_from(lb, close@, 0);
                assert(close@[0] == 60u8);
                lemma_fold_match_start(line.spec_bytes(), close@, e as int);
            }
            let n = lower.len();
            let from_s = vstd::slice::slice_subrange(lower, s, n);
            let gtv: Vec<u8> = vec![62u8];
            assert(gtv@ =~= seq![62u8]);
            proof {
                lemma_find_from(from_s@, seq![62u8], 0);
            }
            match find_bytes(from_s, gtv.as_slice()) {
                Some(gt) => {
                    let cs = s + gt + 1;
                    proof {
                        assert(from_s@.subrange(gt as int, gt + 1)[0] == lb[s + gt]);
                        assert(matches_at(ascii_fold(line.spec_bytes()), seq![62u8], s + gt)) by {
                            assert(lb.subrange(s + gt, s + gt + 1) =~= seq![62u8]);
                        }
                        lemma_fold_match_end(line.spec_bytes(), seq![62u8], s + gt);
                    }
                    if cs < e {
                        if line.is_char_boundary(cs) && line.is_char_boundary(e) {
                            proof {
                                assert(cs <= line.spec_bytes().len());
                                assert(e <= line.spec_bytes().len());
                            }
                            Some(substr(line, cs, e))
                        } else {
                            None
                        }
                    } else {
                        Some(empty)
                    }
                },
                None => Some(empty),
            }
        },
        _ => Some(empty),
    }
}

/// Text of the first `tag` element on `line`, the tag matched without regard
/// to ASCII case; empty where there is none.
pub fn tag_content(line: &str, tag: &str) -> (r: String)
    ensures
        element_text(line.spec_bytes(), lower_bytes(line@), tag.spec_bytes()) == Some(utf8(r@)),
{
    let lower = ascii_fold_bytes(line.as_bytes());
    match element_text_in(line, lower.as_slice(), tag) {
        None => String::new(),
        Some(t) => t.to_owned(),
    }
}

// ── Entities ───────────────────────────────────────────────────────────────

pub open spec fn amp_entity() -> Seq<u8> {
    seq![38u8, 97u8, 109u8, 112u8, 59u8]
}

pub open spec fn lt_entity() -> Seq<u8> {
    seq![38u8, 108u8, 116u8, 59u8]
}

pub open spec fn gt_entity() -> Seq<u8> {
    seq![38u8, 103u8, 116u8, 59u8]
}

pub open spec fn quot_entity() -> Seq<u8> {
    seq![38u8, 113u8, 117u8, 111u8, 116u8, 59u8]
}

pub open spec fn apos_entity() -> Seq<u8> {
    seq![38u8, 35u8, 51u8, 57u8, 59u8]
}

/// `&`, `<` and `>` written as entities, in that order.
pub open spec fn escaped(b: Seq<u8>) -> Seq<u8> {
    replace_all(
        replace_all(replace_all(b, seq![38u8], amp_entity()), seq![60u8], lt_entity()),
        seq![62u8],
        gt_entity(),
    )
}

/// The entities for `&`, `<`, `>`, `"` and `'` read back, in that order.
pub open spec fn unescaped(b: Seq<u8>) -> Seq<u8> {
    replace_all(
        replace_all(
            replace_all(
                replace_all(replace_all(b, amp_entity(), seq![38u8]), lt_entity(), seq![60u8]),
                gt_entity(),
                seq![62u8],
            ),
            quot_entity(),
            seq![34u8],
        ),
        apos_entity(),
        seq![39u8],
    )
}

/// `s` with `&`, `<` and `>` written as HTML entities.
pub fn esc(s: &str) -> (r: String)
    ensures
        utf8(r@) == escaped(s.spec_bytes()),
{
    let p_amp = "&";
    let p_lt = "<";
    let p_gt = ">";
    let r_amp = "&amp;";
    let r_lt = "&lt;";
    let r_gt = "&gt;";
    proof {
        reveal_strlit("&");
        reveal_strlit("<");
        reveal_strlit(">");
        reveal_strlit("&amp;");
        reveal_strlit("&lt;");
        reveal_strlit("&gt;");
        vstd::string::is_ascii_spec_bytes(p_amp);
        vstd::string::is_ascii_spec_bytes(p_lt);
        vstd::string::is_ascii_spec_bytes(p_gt);
        vstd::string::is_ascii_spec_bytes(r_amp);
        vstd::string::is_ascii_spec_bytes(r_lt);
        vstd::string::is_ascii_spec_bytes(r_gt);
    }
    assert(p_amp.spec_bytes() =~= seq![38u8]);
    assert(p_lt.spec_bytes() =~= seq![60u8]);
    assert(p_gt.spec_bytes() =~= seq![62u8]);
    assert(r_amp.spec_bytes() =~= amp_entity());
    assert(r_lt.spec_bytes() =~= lt_entity());
    assert(r_gt.spec_bytes() =~= gt_entity());
    let a = replace_str(s, p_amp, r_amp);
    let b = replace_str(a.as_str(), p_lt, r_lt);
    replace_str(b.as_str(), p_gt, r_gt)
}

/// `s` with the entities `&amp;`, `&lt;`, `&gt;`, `&quot;` and `&#39;` read
/// back as characters, each replaced all over before the next.
pub fn unesc(s: &str) -> (r: String)
    ensures
        utf8(r@) == unescaped(s.spec_bytes()),
{
    let e_amp = "&amp;";
    let e_lt = "&lt;";
    let e_gt = "&gt;";
    let e_quot = "&quot;";
    let e_apos = "&#39;";
    let c_amp = "&";
    let c_lt = "<";
    let c_gt = ">";
    let c_quot = "\"";
    let c_apos = "'";
    proof {
        reveal_strlit("&amp;");
        reveal_strlit("&lt;");
        reveal_strlit("&gt;");
        reveal_strlit("&quot;");
        reveal_strlit("&#39;");
        reveal_strlit("&");
        reveal_strlit("<");
        reveal_strlit(">");
        reveal_strlit("\"");
        reveal_strlit("'");
        vstd::string::is_ascii_spec_bytes(e_amp);
        vstd::string::is_ascii_spec_bytes(e_lt);
        vstd::string::is_ascii_spec_bytes(e_gt);
        vstd::string::is_ascii_spec_bytes(e_quot);
        vstd::string::is_ascii_spec_bytes(e_apos);
        vstd::string::is_ascii_spec_bytes(c_amp);
        vstd::string::is_ascii_spec_bytes(c_lt);
        vstd::string::is_ascii_spec_bytes(c_gt);
        vstd::string::is_ascii_spec_bytes(c_quot);
        vstd::string::is_ascii_spec_bytes(c_apos);
    }
    assert(e_amp.spec_bytes() =~= amp_entity());
    assert(e_lt.spec_bytes() =~= lt_entity());
    assert(e_gt.spec_bytes() =~= gt_entity());
    assert(e_quot.spec_bytes() =~= quot_entity());
    assert(e_apos.spec_bytes() =~= apos_entity());
    assert(c_amp.spec_bytes() =~= seq![38u8]);
    assert(c_lt.spec_bytes() =~= seq![60u8]);
    assert(c_gt.spec_bytes() =~= seq![62u8]);
    assert(c_quot.spec_bytes() =~= seq![34u8]);
    assert(c_apos.spec_bytes() =~= seq![39u8]);
    let a = replace_str(s, e_amp, c_amp);
    let b = replace_str(a.as_str(), e_lt, c_lt);
    let c = replace_str(b.as_str(), e_gt, c_gt);
    let d = replace_str(c.as_str(), e_quot, c_quot);
    replace_str(d.as_str(), e_apos, c_apos)
}

// ── Reading back what was escaped ──────────────────────────────────────────

/// The bytes of `b`, each written out as `f` gives it.
pub open spec fn flat_bytes(b: Seq<u8>, f: spec_fn(u8) -> Seq<u8>) -> Seq<u8>
    decreases b.len(),
{
    if b.len() == 0 {
        Seq::empty()
    } else {
        f(b[0]) + flat_bytes(b.drop_first(), f)
    }
}

spec fn amp_written(x: u8) -> Seq<u8> {
    if x == 38 {
        amp_entity()
    } else {
        seq![x]
    }
}

spec fn amp_lt_written(x: u8) -> Seq<u8> {
    if x == 60 {
        lt_entity()
    } else {
        amp_written(x)
    }
}

/// How [`escaped`] writes one byte.
pub open spec fn escaped_byte(x: u8) -> Seq<u8> {
    if x == 62 {
        gt_entity()
    } else if x == 60 {
        lt_entity()
    } else if x == 38 {
        amp_entity()
    } else {
        seq![x]
    }
}

spec fn lt_gt_written(x: u8) -> Seq<u8> {
    if x == 60 {
        lt_entity()
    } else if x == 62 {
        gt_entity()
    } else {
        seq![x]
    }
}

spec fn gt_written(x: u8) -> Seq<u8> {
    if x == 62 {
        gt_entity()
    } else {
        seq![x]
    }
}

proof fn lemma_match_byte(h: Seq<u8>, p: Seq<u8>, i: int, k: int)
    requires
        matches_at(h, p, i),
        0 <= k < p.len(),
    ensures
        h[i + k] == p[k],
{
    assert(h.subrange(i, i + p.len())[k] == h[i + k]);
}

/// A prefix in which no occurrence of `p` starts is kept as it is.
proof fn lemma_replace_skip(c: Seq<u8>, s: Seq<u8>, p: Seq<u8>, r: Seq<u8>)
    requires
        p.len() > 0,
        forall|j: int| 0 <= j < c.len() ==> !matches_at(c + s, p, j),
    ensures
        replace_all(c + s, p, r) == c + replace_all(s, p, r),
{
    let t = c + s;
    let n = c.len() as int;
    lemma_find_from(t, p, 0);
    lemma_find_from(s, p, 0);
    assert forall|i: int| n <= i implies matches_at(t, p, i) == matches_at(s, p, i - n) by {
        if i + p.len() <= t.len() {
            assert(t.subrange(i, i + p.len()) =~= s.subrange(i - n, i - n + p.len()));
        }
    }
    match find(t, p) {
        None => {
            assert forall|j: int| 0 <= j && j + p.len() <= s.len() implies !matches_at(s, p, j) by {
                assert(matches_at(t, p, j + n) == matches_at(s, p, j));
            }
            lemma_find_none(s, p);
        },
        Some(i) => {
            assert(i >= n);
            assert(matches_at(s, p, i - n));
            assert forall|j: int| 0 <= j < i - n implies !matches_at(s, p, j) by {
                assert(matches_at(t, p, j + n) == matches_at(s, p, j));
            }
            lemma_find_unique_first(s, p, i - n);
            assert(t.subrange(0, i) =~= c + s.subrange(0, i - n));
            assert(t.subrange(i + p.len(), t.len() as int) =~= s.subrange(i - n + p.len(), s.len() as int));
            assert(c + s.subrange(0, i - n) + r + replace_all(s.subrange(i - n + p.len(), s.len() as int), p, r)
                =~= c + (s.subrange(0, i - n) + r + replace_all(s.subrange(i - n + p.len(), s.len() as int), p, r)));
        },
    }
}

/// An occurrence of `p` at the very start is replaced first.
proof fn lemma_replace_head(p: Seq<u8>, s: Seq<u8>, r: Seq<u8>)
    requires
        p.len() > 0,
    ensures
        replace_all(p + s, p, r) == r + replace_all(s, p, r),
{
    let t = p + s;
    assert(t.subrange(0, p.len() as int) =~= p);
    lemma_find_unique_first(t, p, 0);
    assert(t.subrange(0, 0) + r =~= r);
    assert(t.subrange(p.len() as int, t.len() as int) =~= s);
}

proof fn lemma_flat_unit(b: Seq<u8>)
    ensures
        flat_bytes(b, |x: u8| seq![x]) == b,
    decreases b.len(),
{
    if b.len() > 0 {
        lemma_flat_unit(b.drop_first());
        assert(seq![b[0]] + b.drop_first() =~= b);
    }
}

/// Replacing a byte `c` that only `f(c)` writes turns each `f(c)` into `r`.
proof fn lemma_replace_byte(b: Seq<u8>, f: spec_fn(u8) -> Seq<u8>, g: spec_fn(u8) -> Seq<u8>, c: u8, r: Seq<u8>)
    requires
        f(c) == seq![c],
        g(c) == r,
        forall|x: u8| x != c ==> #[trigger] g(x) == f(x),
        forall|x: u8, k: int| x != c && 0 <= k < f(x).len() ==> #[trigger] f(x)[k] != c,
    ensures
        replace_all(flat_bytes(b, f), seq![c], r) == flat_bytes(b, g),
    decreases b.len(),
{
    if b.len() == 0 {
        assert(find(Seq::<u8>::empty(), seq![c]) is None);
    } else {
        let x = b[0];
        let t = b.drop_first();
        let rest = flat_bytes(t, f);
        lemma_replace_byte(t, f, g, c, r);
        if x == c {
            lemma_replace_head(seq![c], rest, r);
        } else {
            let ch = f(x);
            assert forall|j: int| 0 <= j < ch.len() implies !matches_at(ch + rest, seq![c], j) by {
                if matches_at(ch + rest, seq![c], j) {
                    lemma_match_byte(ch + rest, seq![c], j, 0);
                    assert((ch + rest)[j] == ch[j]);
                    assert(f(x)[j] != c);
                }
            }
            lemma_replace_skip(ch, rest, seq![c], r);
        }
    }
}

/// Written out by `f`, a byte that `f` keeps stands for itself: the bytes
/// other than `&` at the front of the written form are those of `t`.
proof fn lemma_flat_plain_prefix(t: Seq<u8>, f: spec_fn(u8) -> Seq<u8>, w: Seq<u8>)
    requires
        forall|x: u8| #[trigger] f(x) == seq![x] || (f(x).len() > 0 && f(x)[0] == 38u8),
        w.len() <= flat_bytes(t, f).len(),
        flat_bytes(t, f).subrange(0, w.len() as int) == w,
        forall|k: int| 0 <= k < w.len() ==> w[k] != 38u8,
    ensures
        w.len() <= t.len(),
        t.subrange(0, w.len() as int) == w,
    decreases w.len(),
{
    if w.len() > 0 {
        if t.len() == 0 {
            assert(flat_bytes(t, f).len() == 0);
        } else {
            let x = t[0];
            let rest = flat_bytes(t.drop_first(), f);
            let whole = flat_bytes(t, f);
            assert(whole == f(x) + rest);
            assert(whole[0] == whole.subrange(0, w.len() as int)[0]);
            assert(f(x) == seq![x]);
            assert(w[0] == x);
            assert(rest.subrange(0, w.len() - 1) =~= w.drop_first()) by {
                assert forall|k: int| 0 <= k < w.len() - 1 implies rest.subrange(0, w.len() - 1)[k] == w.drop_first()[k] by {
                    assert(whole[k + 1] == whole.subrange(0, w.len() as int)[k + 1]);
                    assert(whole[k + 1] == rest[k]);
                }
            }
            lemma_flat_plain_prefix(t.drop_first(), f, w.drop_first());
            assert(t.subrange(0, w.len() as int) =~= seq![x] + t.drop_first().subrange(0, w.len() - 1));
            assert(w =~= seq![w[0]] + w.drop_first());
        }
    }
}

proof fn lemma_match_shift(b: Seq<u8>, p: Seq<u8>, j: int)
    requires
        b.len() > 0,
        matches_at(b.drop_first(), p, j),
    ensures
        matches_at(b, p, j + 1),
{
    assert(b.subrange(j + 1, j + 1 + p.len()) =~= b.drop_first().subrange(j, j + p.len()));
}

/// Reading `&amp;` back in an escaped text leaves `<` and `>` written.
proof fn lemma_unescape_amp(b: Seq<u8>)
    ensures
        replace_all(flat_bytes(b, |x: u8| escaped_byte(x)), amp_entity(), seq![38u8])
            == flat_bytes(b, |x: u8| lt_gt_written(x)),
    decreases b.len(),
{
    let f = |x: u8| escaped_byte(x);
    let p = amp_entity();
    if b.len() == 0 {
        assert(find(Seq::<u8>::empty(), p) is None);
    } else {
        let x = b[0];
        let t = b.drop_first();
        let rest = flat_bytes(t, f);
        lemma_unescape_amp(t);
        if x == 38 {
            lemma_replace_head(p, rest, seq![38u8]);
        } else {
            let ch = escaped_byte(x);
            assert forall|j: int| 0 <= j < ch.len() implies !matches_at(ch + rest, p, j) by {
                if matches_at(ch + rest, p, j) {
                    lemma_match_byte(ch + rest, p, j, 0);
                    assert((ch + rest)[j] == ch[j]);
                    if j == 0 && ch.len() > 1 {
                        lemma_match_byte(ch + rest, p, j, 1);
                        assert((ch + rest)[1] == ch[1]);
                    }
                }
            }
            lemma_replace_skip(ch, rest, p, seq![38u8]);
        }
    }
}

/// Reading `&lt;` back, where the text held no `&lt;` of its own.
proof fn lemma_unescape_lt(b: Seq<u8>)
    requires
        forall|j: int| !matches_at(b, lt_entity(), j),
    ensures
        replace_all(flat_bytes(b, |x: u8| lt_gt_written(x)), lt_entity(), seq![60u8])
            == flat_bytes(b, |x: u8| gt_written(x)),
    decreases b.len(),
{
    let f = |x: u8| lt_gt_written(x);
    let p = lt_entity();
    if b.len() == 0 {
        assert(find(Seq::<u8>::empty(), p) is None);
    } else {
        let x = b[0];
        let t = b.drop_first();
        let rest = flat_bytes(t, f);
        assert forall|j: int| !matches_at(t, p, j) by {
            if matches_at(t, p, j) {
                lemma_match_shift(b, p, j);
            }
        }
        lemma_unescape_lt(t);
        if x == 60 {
            lemma_replace_head(p, rest, seq![60u8]);
        } else {
            let ch = lt_gt_written(x);
            assert forall|j: int| 0 <= j < ch.len() implies !matches_at(ch + rest, p, j) by {
                if matches_at(ch + rest, p, j) {
                    lemma_match_byte(ch + rest, p, j, 0);
                    assert((ch + rest)[j] == ch[j]);
                    if j == 0 && ch.len() > 1 {
                        lemma_match_byte(ch + rest, p, j, 1);
                        assert((ch + rest)[1] == ch[1]);
                    }
                    if x == 38 {
                        let w = seq![108u8, 116u8, 59u8];
                        assert(rest.subrange(0, 3) =~= w) by {
                            lemma_match_byte(ch + rest, p, 0, 1);
                            lemma_match_byte(ch + rest, p, 0, 2);
                            lemma_match_byte(ch + rest, p, 0, 3);
                        }
                        lemma_flat_plain_prefix(t, f, w);
                        assert(b.subrange(0, 4) =~= p) by {
                            assert(b[0] == 38u8);
                            assert(b[1] == t[0] && b[2] == t[1] && b[3] == t[2]);
                            assert(t.subrange(0, 3)[0] == t[0]);
                            assert(t.subrange(0, 3)[1] == t[1]);
                            assert(t.subrange(0, 3)[2] == t[2]);
                        }
                        assert(matches_at(b, p, 0));
                    }
                }
            }
            lemma_replace_skip(ch, rest, p, seq![60u8]);
        }
    }
}

/// Reading `&gt;` back, where the text held no `&gt;` of its own.
proof fn lemma_unescape_gt(b: Seq<u8>)
    requires
        forall|j: int| !matches_at(b, gt_entity(), j),
    ensures
        replace_all(flat_bytes(b, |x: u8| gt_written(x)), gt_entity(), seq![62u8])
            == flat_bytes(b, |x: u8| seq![x]),
    decreases b.len(),
{
    let f = |x: u8| gt_written(x);
    let p = gt_entity();
    if b.len() == 0 {
        assert(find(Seq::<u8>::empty(), p) is None);
    } else {
        let x = b[0];
        let t = b.drop_first();
        let rest = flat_bytes(t, f);
        assert forall|j: int| !matches_at(t, p, j) by {
            if matches_at(t, p, j) {
                lemma_match_shift(b, p, j);
            }
        }
        lemma_unescape_gt(t);
        if x == 62 {
            lemma_replace_head(p, rest, seq![62u8]);
        } else {
            let ch = gt_written(x);
            assert forall|j: int| 0 <= j < ch.len() implies !matches_at(ch + rest, p, j) by {
                if matches_at(ch + rest, p, j) {
                    lemma_match_byte(ch + rest, p, j, 0);
                    assert((ch + rest)[j] == ch[j]);
                    if x == 38 {
                        let w = seq![103u8, 116u8, 59u8];
                        assert(rest.subrange(0, 3) =~= w) by {
                            lemma_match_byte(ch + rest, p, 0, 1);
                            lemma_match_byte(ch + rest, p, 0, 2);
                            lemma_match_byte(ch + rest, p, 0, 3);
                        }
                        lemma_flat_plain_prefix(t, f, w);
                        assert(b.subrange(0, 4) =~= p) by {
                            assert(b[0] == 38u8);
                            assert(b[1] == t[0] && b[2] == t[1] && b[3] == t[2]);
                            assert(t.subrange(0, 3)[0] == t[0]);
                            assert(t.subrange(0, 3)[1] == t[1]);
                            assert(t.subrange(0, 3)[2] == t[2]);
                        }
                        assert(matches_at(b, p, 0));
                    }
                }
            }
            lemma_replace_skip(ch, rest, p, seq![62u8]);
        }
    }
}

proof fn lemma_replace_absent(b: Seq<u8>, p: Seq<u8>, r: Seq<u8>)
    requires
        forall|j: int| !matches_at(b, p, j),
    ensures
        replace_all(b, p, r) == b,
{
    lemma_find_none(b, p);
}

/// Escaping writes each byte of the text as [`escaped_byte`] gives it.
pub proof fn law_escaped_bytewise(b: Seq<u8>)
    ensures
        escaped(b) == flat_bytes(b, |x: u8| escaped_byte(x)),
{
    let unit = |x: u8| seq![x];
    let s1 = |x: u8| amp_written(x);
    let s2 = |x: u8| amp_lt_written(x);
    let s3 = |x: u8| escaped_byte(x);
    lemma_flat_unit(b);
    lemma_replace_byte(b, unit, s1, 38u8, amp_entity());
    lemma_replace_byte(b, s1, s2, 60u8, lt_entity());
    assert forall|x: u8| x != 62u8 implies #[trigger] s3(x) == s2(x) by {}
    lemma_replace_byte(b, s2, s3, 62u8, gt_entity());
}

/// Reading back the entities of an escaped text gives the text again,
/// wherever the text does not itself hold `&lt;`, `&gt;`, `&quot;` or
/// `&#39;` (which read back as the characters they name).
pub proof fn law_unescape_after_escape(b: Seq<u8>)
    requires
        forall|j: int| !matches_at(b, lt_entity(), j),
        forall|j: int| !matches_at(b, gt_entity(), j),
        forall|j: int| !matches_at(b, quot_entity(), j),
        forall|j: int| !matches_at(b, apos_entity(), j),
    ensures
        unescaped(escaped(b)) == b,
{
    law_escaped_bytewise(b);
    lemma_unescape_amp(b);
    lemma_unescape_lt(b);
    lemma_unescape_gt(b);
    lemma_flat_unit(b);
    lemma_replace_absent(b, quot_entity(), seq![34u8]);
    lemma_replace_absent(b, apos_entity(), seq![39u8]);
}

} // verus!
