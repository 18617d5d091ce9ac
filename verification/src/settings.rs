//! The window settings file: a flat JSON-like text read by looking up each
//! key, and written back in one line.

use vstd::prelude::*;
use vstd::string::{StrSliceExecFns, StringExecFns, StringSliceAdditionalSpecFns};
use vstd::utf8::*;
use crate::text::{
    ascii_bytes, decimal, find, find_bytes, lemma_ascii_boundary, lemma_find_from, lemma_find_none,
    lemma_find_unique_first, lemma_match_boundaries, lemma_str_bytes, lemma_utf8_ascii,
    lemma_utf8_ascii_byte, lemma_utf8_concat, matches_at, signed_decimal, signed_decimal_string,
    str_trim_start, substr, trim_start, utf8,
};

verus! {

// ── Whole numbers ──────────────────────────────────────────────────────────

pub open spec fn is_digit(c: u8) -> bool {
    48 <= c <= 57
}

pub open spec fn all_digits(b: Seq<u8>) -> bool {
    forall|i: int| 0 <= i < b.len() ==> is_digit(#[trigger] b[i])
}

/// The number the decimal digits `b` stand for.
pub open spec fn digits_value(b: Seq<u8>) -> nat
    decreases b.len(),
{
    if b.len() == 0 {
        0
    } else {
        digits_value(b.drop_last()) * 10 + (b.last() - 48) as nat
    }
}

/// What `str::parse` gives for a whole number between `lo` and `hi`: an
/// optional sign (`-` only where `lo` is negative) and at least one digit,
/// in range.
pub open spec fn parsed_int(b: Seq<u8>, lo: int, hi: int) -> Option<int> {
    let neg = b.len() > 0 && b[0] == 45u8 && lo < 0;
    let ds = if b.len() > 0 && (b[0] == 43u8 || (b[0] == 45u8 && lo < 0)) {
        b.drop_first()
    } else {
        b
    };
    if ds.len() == 0 || !all_digits(ds) {
        None
    } else {
        let v = if neg {
            -(digits_value(ds) as int)
        } else {
            digits_value(ds) as int
        };
        if lo <= v <= hi {
            Some(v)
        } else {
            None
        }
    }
}

pub open spec fn cap() -> nat {
    0x1_0000_0000_0000_0000
}

pub open spec fn capped(v: nat) -> nat {
    if v > cap() {
        cap()
    } else {
        v
    }
}

proof fn lemma_digits_grow(b: Seq<u8>, d: u8)
    requires
        is_digit(d),
    ensures
        digits_value(b.push(d)) == digits_value(b) * 10 + (d - 48),
        digits_value(b.push(d)) >= digits_value(b),
{
    assert(b.push(d).drop_last() =~= b);
}

/// The value of the digits of `b`, or `None` where a byte is no digit or
/// there is none; values above 2^64 are reported as 2^64.
fn digits_capped(b: &[u8]) -> (r: Option<u128>)
    ensures
        r is None <==> (b@.len() == 0 || !all_digits(b@)),
        r matches Some(v) ==> v == capped(digits_value(b@)),
{
    if b.len() == 0 {
        return None;
    }
    let mut acc: u128 = 0;
    let mut i: usize = 0;
    assert(b@.take(0) =~= Seq::<u8>::empty());
    while i < b.len()
        invariant
            i <= b@.len(),
            all_digits(b@.take(i as int)),
            acc == capped(digits_value(b@.take(i as int))),
        decreases b@.len() - i,
    {
        let c = b[i];
        if c < 48 || c > 57 {
            assert(!all_digits(b@)) by {
                assert(!is_digit(b@[i as int]));
            }
            return None;
        }
        proof {
            lemma_digits_grow(b@.take(i as int), c);
            assert(b@.take(i + 1) =~= b@.take(i as int).push(c));
        }
        let d: u128 = (c - 48) as u128;
        if acc >= 0x1_0000_0000_0000_0000u128 {
            acc = 0x1_0000_0000_0000_0000u128;
        } else {
            let next = acc * 10 + d;
            acc = if next > 0x1_0000_0000_0000_0000u128 {
                0x1_0000_0000_0000_0000u128
            } else {
                next
            };
        }
        i += 1;
        assert(all_digits(b@.take(i as int))) by {
            assert forall|j: int| 0 <= j < i implies is_digit(#[trigger] b@.take(i as int)[j]) by {
                if j < i - 1 {
                    assert(b@.take(i as int)[j] == b@.take(i - 1)[j]);
                }
            }
        }
    }
    assert(b@.take(i as int) =~= b@);
    Some(acc)
}

/// `str::parse::<i64>`.
pub fn parse_i64(s: &str) -> (r: Option<i64>)
    ensures
        match parsed_int(s.spec_bytes(), i64::MIN as int, i64::MAX as int) {
            Some(v) => r == Some(v as i64),
            None => r is None,
        },
{
    let b = s.as_bytes();
    let n = b.len();
    let neg = n > 0 && b[0] == 45u8;
    let start: usize = if n > 0 && (b[0] == 43u8 || b[0] == 45u8) {
        1
    } else {
        0
    };
    let ds = vstd::slice::slice_subrange(b, start, n);
    assert(ds@ =~= if n > 0 && (b@[0] == 43u8 || b@[0] == 45u8) {
        b@.drop_first()
    } else {
        b@
    });
    match digits_capped(ds) {
        None => None,
        Some(v) => {
            if neg {
                if v <= 0x8000_0000_0000_0000u128 {
                    proof {
                        assert(v == digits_value(ds@));
                    }
                    if v == 0x8000_0000_0000_0000u128 {
                        Some(i64::MIN)
                    } else {
                        Some(-(v as i64))
                    }
                } else {
                    None
                }
            } else {
                if v <= 0x7fff_ffff_ffff_ffffu128 {
                    Some(v as i64)
                } else {
                    None
                }
            }
        },
    }
}

/// `str::parse::<i32>`.
pub fn parse_i32(s: &str) -> (r: Option<i32>)
    ensures
        match parsed_int(s.spec_bytes(), i32::MIN as int, i32::MAX as int) {
            Some(v) => r == Some(v as i32),
            None => r is None,
        },
{
    match parse_i64(s) {
        Some(v) => {
            if v >= i32::MIN as i64 && v <= i32::MAX as i64 {
                Some(v as i32)
            } else {
                None
            }
        },
        None => None,
    }
}

// ── Keys ───────────────────────────────────────────────────────────────────

/// The text after the first `key`.
pub open spec fn after_key(s: Seq<u8>, key: Seq<u8>) -> Option<Seq<u8>> {
    match find(s, key) {
        Some(p) => Some(s.subrange(p + key.len(), s.len() as int)),
        None => None,
    }
}

fn after_key_str<'a>(s: &'a str, key: &str) -> (r: Option<&'a str>)
    requires
        key.spec_bytes().len() > 0,
        ascii_bytes(key.spec_bytes()),
    ensures
        match after_key(s.spec_bytes(), key.spec_bytes()) {
            Some(rest) => r matches Some(t) && t.spec_bytes() == rest,
            None => r is None,
        },
{
    proof {
        lemma_str_bytes(s);
        lemma_find_from(s.spec_bytes(), key.spec_bytes(), 0);
    }
    let sb = s.as_bytes();
    match find_bytes(sb, key.as_bytes()) {
        Some(p) => {
            proof {
                lemma_match_boundaries(s.spec_bytes(), key.spec_bytes(), p as int);
            }
            assert(p + key.spec_bytes().len() <= sb.len());
            Some(substr(s, p + key.as_bytes().len(), sb.len()))
        },
        None => None,
    }
}

/// The length of the run of bytes at the start of `b` that are digits, or
/// (with `dash`) digits or `-`.
pub open spec fn run_len(b: Seq<u8>, dash: bool) -> nat
    decreases b.len(),
{
    if b.len() > 0 && (is_digit(b[0]) || (dash && b[0] == 45u8)) {
        1 + run_len(b.drop_first(), dash)
    } else {
        0
    }
}

proof fn lemma_run_len(b: Seq<u8>, dash: bool, i: int)
    requires
        0 <= i <= b.len(),
        forall|j: int| 0 <= j < i ==> is_digit(#[trigger] b[j]) || (dash && b[j] == 45u8),
    ensures
        run_len(b, dash) == i + run_len(b.subrange(i, b.len() as int), dash),
    decreases i,
{
    if i == 0 {
        assert(b.subrange(0, b.len() as int) =~= b);
    } else {
        let t = b.drop_first();
        assert forall|j: int| 0 <= j < i - 1 implies is_digit(#[trigger] t[j]) || (dash && t[j] == 45u8) by {
            assert(t[j] == b[j + 1]);
        }
        lemma_run_len(t, dash, i - 1);
        assert(t.subrange(i - 1, t.len() as int) =~= b.subrange(i, b.len() as int));
    }
}

/// The leading run of `s` (see [`run_len`]).
fn leading_run<'a>(s: &'a str, dash: bool) -> (r: &'a str)
    ensures
        r.spec_bytes() == s.spec_bytes().subrange(0, run_len(s.spec_bytes(), dash) as int),
        run_len(s.spec_bytes(), dash) <= s.spec_bytes().len(),
{
    proof {
        lemma_str_bytes(s);
    }
    let b = s.as_bytes();
    let mut i: usize = 0;
    while i < b.len() && ((b[i] >= 48 && b[i] <= 57) || (dash && b[i] == 45u8))
        invariant
            i <= b@.len(),
            forall|j: int| 0 <= j < i ==> is_digit(#[trigger] b@[j]) || (dash && b@[j] == 45u8),
        decreases b@.len() - i,
    {
        i += 1;
    }
    proof {
        lemma_run_len(b@, dash, i as int);
        if i < b.len() {
            assert(b@.subrange(i as int, b@.len() as int)[0] == b@[i as int]);
        }
        if i > 0 {
            lemma_ascii_boundary(b@, i - 1);
        }
    }
    substr(s, 0, i)
}

/// A switch is on where the text after its key starts (after white space)
/// with `1` or `true`.
pub open spec fn switch_on(rest: Seq<u8>) -> bool {
    let t = str_trim_start(decode_utf8(rest));
    (t.len() > 0 && t[0] == '1') || (t.len() >= 4 && t.subrange(0, 4) == "true"@)
}

fn switch_value(rest: &str) -> (r: bool)
    ensures
        r == switch_on(rest.spec_bytes()),
{
    proof {
        encode_utf8_decode_utf8(rest@);
    }
    let t = trim_start(rest);
    let n = t.unicode_len();
    if n > 0 && t.get_char(0) == '1' {
        return true;
    }
    if n >= 4 {
        let head = t.substring_char(0, 4);
        proof {
            reveal_strlit("true");
        }
        return crate::text::str_eq(head, "true");
    }
    false
}

/// The pieces of `b` between commas.
pub open spec fn comma_pieces(b: Seq<u8>) -> Seq<Seq<u8>>
    decreases b.len(),
{
    match find(b, seq![44u8]) {
        None => seq![b],
        Some(i) => {
            proof {
                lemma_find_from(b, seq![44u8], 0);
            }
            seq![b.subrange(0, i)] + comma_pieces(b.subrange(i + 1, b.len() as int))
        },
    }
}

/// The ids of a comma-separated list, the pieces that are no number left out.
pub open spec fn id_list(pieces: Seq<Seq<u8>>) -> Seq<i64>
    decreases pieces.len(),
{
    if pieces.len() == 0 {
        Seq::empty()
    } else {
        let rest = id_list(pieces.subrange(1, pieces.len() as int));
        match parsed_int(pieces[0], i64::MIN as int, i64::MAX as int) {
            Some(v) => seq![v as i64] + rest,
            None => rest,
        }
    }
}

fn parse_id_list(s: &str) -> (r: Vec<i64>)
    ensures
        r@ == id_list(comma_pieces(s.spec_bytes())),
    decreases s.spec_bytes().len(),
{
    let comma: Vec<u8> = vec![44u8];
    assert(comma@ =~= seq![44u8]);
    proof {
        lemma_str_bytes(s);
        lemma_find_from(s.spec_bytes(), seq![44u8], 0);
    }
    let b = s.as_bytes();
    let ghost ps = comma_pieces(s.spec_bytes());
    match find_bytes(b, comma.as_slice()) {
        None => {
            let mut out: Vec<i64> = Vec::new();
            match parse_i64(s) {
                Some(v) => out.push(v),
                None => {},
            }
            assert(ps =~= seq![s.spec_bytes()]);
            assert(ps.subrange(1, ps.len() as int) =~= Seq::<Seq<u8>>::empty());
            assert(id_list(ps.subrange(1, ps.len() as int)) =~= Seq::<i64>::empty());
            assert(out@ =~= id_list(ps));
            out
        },
        Some(i) => {
            proof {
                assert(s.spec_bytes().subrange(i as int, i + 1)[0] == 44u8);
                lemma_ascii_boundary(s.spec_bytes(), i as int);
            }
            assert(i + 1 <= b.len());
            let piece = substr(s, 0, i);
            let t = substr(s, i + 1, b.len());
            let mut out: Vec<i64> = Vec::new();
            match parse_i64(piece) {
                Some(v) => out.push(v),
                None => {},
            }
            let mut tail = parse_id_list(t);
            assert(ps.subrange(1, ps.len() as int) =~= comma_pieces(t.spec_bytes()));
            assert(ps[0] == piece.spec_bytes());
            out.append(&mut tail);
            assert(out@ =~= id_list(ps));
            out
        },
    }
}

// ── The settings ───────────────────────────────────────────────────────────

/// The settings the window keeps, all but the tree width.
pub struct Settings {
    pub col_name_width: i32,
    pub confirm_delete: bool,
    pub no_dup_urls: bool,
    pub dark_theme: bool,
    pub show_toolbar: bool,
    pub accordion: bool,
    pub expanded: Vec<i64>,
    pub active_folder: Option<i64>,
}

pub open spec fn clamp(v: int, lo: int, hi: int) -> int {
    if v < lo {
        lo
    } else if v > hi {
        hi
    } else {
        v
    }
}

pub open spec fn col_width_of(s: Seq<u8>) -> i32 {
    match after_key(s, utf8("\"col_name_width\":"@)) {
        Some(rest) => match parsed_int(rest.subrange(0, run_len(rest, false) as int), i32::MIN as int, i32::MAX as int) {
            Some(v) => clamp(v, 80, 700) as i32,
            None => 240,
        },
        None => 240,
    }
}

pub open spec fn switch_of(s: Seq<u8>, key: Seq<char>, default: bool) -> bool {
    match after_key(s, utf8(key)) {
        Some(rest) => switch_on(rest),
        None => default,
    }
}

pub open spec fn expanded_of(s: Seq<u8>) -> Seq<i64> {
    match after_key(s, utf8("\"expanded\":\""@)) {
        Some(rest) => {
            let end = match find(rest, seq![34u8]) {
                Some(e) => e,
                None => rest.len() as int,
            };
            id_list(comma_pieces(rest.subrange(0, end)))
        },
        None => Seq::empty(),
    }
}

pub open spec fn active_of(s: Seq<u8>) -> Option<i64> {
    match after_key(s, utf8("\"active_folder\":"@)) {
        Some(rest) => match parsed_int(rest.subrange(0, run_len(rest, true) as int), i64::MIN as int, i64::MAX as int) {
            Some(v) => if v > 0 {
                Some(v as i64)
            } else {
                None
            },
            None => None,
        },
        None => None,
    }
}

/// What a settings text `s` sets; where a key is missing or unreadable the
/// default stays: column width 240 (kept between 80 and 700), confirm
/// deletes on, duplicate guard off, dark theme off, toolbar on, accordion
/// off, nothing expanded, no open folder (only a positive id opens one).
pub open spec fn settings_hold(st: Settings, s: Seq<u8>) -> bool {
    &&& st.col_name_width == col_width_of(s)
    &&& st.confirm_delete == switch_of(s, "\"confirm_delete\":"@, true)
    &&& st.no_dup_urls == switch_of(s, "\"no_dup_urls\":"@, false)
    &&& st.dark_theme == switch_of(s, "\"dark_theme\":"@, false)
    &&& st.show_toolbar == switch_of(s, "\"show_toolbar\":"@, true)
    &&& st.accordion == switch_of(s, "\"accordion\":"@, false)
    &&& st.expanded@ == expanded_of(s)
    &&& st.active_folder == active_of(s)
}

fn read_switch(s: &str, key: &str, default: bool) -> (r: bool)
    requires
        key.spec_bytes().len() > 0,
        ascii_bytes(key.spec_bytes()),
    ensures
        r == switch_of(s.spec_bytes(), key@, default),
{
    match after_key_str(s, key) {
        Some(rest) => switch_value(rest),
        None => default,
    }
}

pub fn parse_settings(s: &str) -> (r: Settings)
    ensures
        settings_hold(r, s.spec_bytes()),
{
    let k_col = "\"col_name_width\":";
    let k_confirm = "\"confirm_delete\":";
    let k_nodup = "\"no_dup_urls\":";
    let k_dark = "\"dark_theme\":";
    let k_toolbar = "\"show_toolbar\":";
    let k_accordion = "\"accordion\":";
    let k_expanded = "\"expanded\":\"";
    let k_active = "\"active_folder\":";
    proof {
        reveal_strlit("\"col_name_width\":");
        reveal_strlit("\"confirm_delete\":");
        reveal_strlit("\"no_dup_urls\":");
        reveal_strlit("\"dark_theme\":");
        reveal_strlit("\"show_toolbar\":");
        reveal_strlit("\"accordion\":");
        reveal_strlit("\"expanded\":\"");
        reveal_strlit("\"active_folder\":");
        vstd::string::is_ascii_spec_bytes(k_col);
        vstd::string::is_ascii_spec_bytes(k_confirm);
        vstd::string::is_ascii_spec_bytes(k_nodup);
        vstd::string::is_ascii_spec_bytes(k_dark);
        vstd::string::is_ascii_spec_bytes(k_toolbar);
        vstd::string::is_ascii_spec_bytes(k_accordion);
        vstd::string::is_ascii_spec_bytes(k_expanded);
        vstd::string::is_ascii_spec_bytes(k_active);
    }
    let col_name_width: i32 = match after_key_str(s, k_col) {
        Some(rest) => {
            let digits = leading_run(rest, false);
            match parse_i32(digits) {
                Some(v) => if v < 80 {
                    80
                } else if v > 700 {
                    700
                } else {
                    v
                },
                None => 240,
            }
        },
        None => 240,
    };
    let expanded: Vec<i64> = match after_key_str(s, k_expanded) {
        Some(rest) => {
            let quote: Vec<u8> = vec![34u8];
            assert(quote@ =~= seq![34u8]);
            proof {
                lemma_str_bytes(rest);
                lemma_find_from(rest.spec_bytes(), seq![34u8], 0);
            }
            let rb = rest.as_bytes();
            let end: usize = match find_bytes(rb, quote.as_slice()) {
                Some(e) => {
                    proof {
                        assert(rest.spec_bytes().subrange(e as int, e + 1)[0] == 34u8);
                        lemma_ascii_boundary(rest.spec_bytes(), e as int);
                    }
                    e
                },
                None => rb.len(),
            };
            let list = substr(rest, 0, end);
            parse_id_list(list)
        },
        None => Vec::new(),
    };
    let active_folder: Option<i64> = match after_key_str(s, k_active) {
        Some(rest) => {
            let run = leading_run(rest, true);
            match parse_i64(run) {
                Some(v) => if v > 0 {
                    Some(v)
                } else {
                    None
                },
                None => None,
            }
        },
        None => None,
    };
    Settings {
        col_name_width,
        confirm_delete: read_switch(s, k_confirm, true),
        no_dup_urls: read_switch(s, k_nodup, false),
        dark_theme: read_switch(s, k_dark, false),
        show_toolbar: read_switch(s, k_toolbar, true),
        accordion: read_switch(s, k_accordion, false),
        expanded,
        active_folder,
    }
}

/// The settings line written back, the tree width given as its text.
pub open spec fn settings_text(tree_width: Seq<char>, st: Settings) -> Seq<char> {
    "{\"tree_width\":"@ + tree_width + ",\"col_name_width\":"@ + signed_decimal(st.col_name_width as int)
        + ",\"confirm_delete\":"@ + bit(st.confirm_delete) + ",\"no_dup_urls\":"@ + bit(st.no_dup_urls)
        + ",\"dark_theme\":"@ + bit(st.dark_theme) + ",\"show_toolbar\":"@ + bit(st.show_toolbar)
        + ",\"accordion\":"@ + bit(st.accordion) + ",\"expanded\":\""@ + joined_ids(st.expanded@)
        + "\",\"active_folder\":"@ + signed_decimal(
        match st.active_folder {
            Some(a) => a as int,
            None => 0,
        },
    ) + "}"@
}

pub open spec fn bit(b: bool) -> Seq<char> {
    if b {
        "1"@
    } else {
        "0"@
    }
}

/// The ids in decimal, separated by commas.
pub open spec fn joined_ids(ids: Seq<i64>) -> Seq<char>
    decreases ids.len(),
{
    if ids.len() == 0 {
        Seq::empty()
    } else if ids.len() == 1 {
        signed_decimal(ids[0] as int)
    } else {
        joined_ids(ids.drop_last()) + ","@ + signed_decimal(ids.last() as int)
    }
}

fn push_bit(out: &mut String, b: bool)
    ensures
        final(out)@ == old(out)@ + bit(b),
{
    out.append(
        if b {
            "1"
        } else {
            "0"
        },
    );
}

pub fn settings_json(tree_width: &str, st: &Settings) -> (r: String)
    ensures
        r@ == settings_text(tree_width@, *st),
{
    let mut out = String::from_str("{\"tree_width\":");
    out.append(tree_width);
    out.append(",\"col_name_width\":");
    let cw = signed_decimal_string(st.col_name_width as i64);
    out.append(cw.as_str());
    out.append(",\"confirm_delete\":");
    push_bit(&mut out, st.confirm_delete);
    out.append(",\"no_dup_urls\":");
    push_bit(&mut out, st.no_dup_urls);
    out.append(",\"dark_theme\":");
    push_bit(&mut out, st.dark_theme);
    out.append(",\"show_toolbar\":");
    push_bit(&mut out, st.show_toolbar);
    out.append(",\"accordion\":");
    push_bit(&mut out, st.accordion);
    out.append(",\"expanded\":\"");
    let mut i: usize = 0;
    let ghost head = out@;
    assert(st.expanded@.take(0) =~= Seq::<i64>::empty());
    while i < st.expanded.len()
        invariant
            i <= st.expanded@.len(),
            out@ == head + joined_ids(st.expanded@.take(i as int)),
        decreases st.expanded@.len() - i,
    {
        if i > 0 {
            out.append(",");
        }
        let d = signed_decimal_string(st.expanded[i]);
        out.append(d.as_str());
        i += 1;
        assert(st.expanded@.take(i as int).drop_last() =~= st.expanded@.take(i - 1));
        assert(out@ =~= head + joined_ids(st.expanded@.take(i as int)));
    }
    assert(st.expanded@.take(i as int) =~= st.expanded@);
    out.append("\",\"active_folder\":");
    let a: i64 = match st.active_folder {
        Some(a) => a,
        None => 0,
    };
    let ad = signed_decimal_string(a);
    out.append(ad.as_str());
    out.append("}");
    out
}

// ── Reading back what was written ──────────────────────────────────────────

spec fn nm_tree() -> Seq<u8> {
    seq![116u8, 114u8, 101u8, 101u8, 95u8, 119u8, 105u8, 100u8, 116u8, 104u8]
}

spec fn nm_col() -> Seq<u8> {
    seq![99u8, 111u8, 108u8, 95u8, 110u8, 97u8, 109u8, 101u8, 95u8, 119u8, 105u8, 100u8, 116u8, 104u8]
}

spec fn nm_confirm() -> Seq<u8> {
    seq![99u8, 111u8, 110u8, 102u8, 105u8, 114u8, 109u8, 95u8, 100u8, 101u8, 108u8, 101u8, 116u8, 101u8]
}

spec fn nm_nodup() -> Seq<u8> {
    seq![110u8, 111u8, 95u8, 100u8, 117u8, 112u8, 95u8, 117u8, 114u8, 108u8, 115u8]
}

spec fn nm_dark() -> Seq<u8> {
    seq![100u8, 97u8, 114u8, 107u8, 95u8, 116u8, 104u8, 101u8, 109u8, 101u8]
}

spec fn nm_show() -> Seq<u8> {
    seq![115u8, 104u8, 111u8, 119u8, 95u8, 116u8, 111u8, 111u8, 108u8, 98u8, 97u8, 114u8]
}

spec fn nm_acc() -> Seq<u8> {
    seq![97u8, 99u8, 99u8, 111u8, 114u8, 100u8, 105u8, 111u8, 110u8]
}

spec fn nm_exp() -> Seq<u8> {
    seq![101u8, 120u8, 112u8, 97u8, 110u8, 100u8, 101u8, 100u8]
}

spec fn nm_act() -> Seq<u8> {
    seq![97u8, 99u8, 116u8, 105u8, 118u8, 101u8, 95u8, 102u8, 111u8, 108u8, 100u8, 101u8, 114u8]
}

/// `"name":`, as the settings text writes and looks up a key.
spec fn key_bytes(n: Seq<u8>) -> Seq<u8> {
    seq![34u8] + n + seq![34u8, 58u8]
}

/// A key name: lower-case letters and underscores.
spec fn word(n: Seq<u8>) -> bool {
    n.len() > 0 && forall|k: int| 0 <= k < n.len() ==> (97 <= #[trigger] n[k] <= 122 || n[k] == 95)
}

spec fn quote_free(b: Seq<u8>) -> bool {
    forall|k: int| 0 <= k < b.len() ==> #[trigger] b[k] != 34u8
}

proof fn lemma_match_at_byte(h: Seq<u8>, p: Seq<u8>, i: int, k: int)
    requires
        matches_at(h, p, i),
        0 <= k < p.len(),
    ensures
        h[i + k] == p[k],
{
    assert(h.subrange(i, i + p.len())[k] == h[i + k]);
}

/// No key `"ni":…` starts inside the key `o"nm":` of another name.
proof fn lemma_key_skip(o: u8, nm: Seq<u8>, ni: Seq<u8>, extra: Seq<u8>, rest: Seq<u8>)
    requires
        o != 34u8,
        word(nm),
        word(ni),
        nm != ni,
    ensures
        forall|j: int|
            0 <= j < nm.len() + 4 ==> !matches_at(seq![o] + key_bytes(nm) + rest, key_bytes(ni) + extra, j),
{
    let c = seq![o] + key_bytes(nm);
    let h = c + rest;
    let p = key_bytes(ni) + extra;
    let a = nm.len() as int;
    let b = ni.len() as int;
    assert(c.len() == a + 4);
    assert(p.len() == b + 3 + extra.len());
    assert forall|k: int| 0 <= k < a implies #[trigger] h[2 + k] == nm[k] by {
        assert(h[2 + k] == c[2 + k]);
    }
    assert forall|k: int| 0 <= k < b implies #[trigger] p[1 + k] == ni[k] by {}
    assert(h[0] == o && h[1] == 34u8 && h[a + 2] == 34u8 && h[a + 3] == 58u8);
    assert(p[0] == 34u8 && p[b + 1] == 34u8);
    assert forall|j: int| 0 <= j < a + 4 implies !matches_at(h, p, j) by {
        if matches_at(h, p, j) {
            lemma_match_at_byte(h, p, j, 0);
            if j == 1 {
                if a == b {
                    assert forall|k: int| 0 <= k < a implies nm[k] == ni[k] by {
                        lemma_match_at_byte(h, p, 1, 1 + k);
                    }
                    assert(nm =~= ni);
                } else if a < b {
                    lemma_match_at_byte(h, p, 1, a + 1);
                    assert(ni[a] != 34u8);
                } else {
                    lemma_match_at_byte(h, p, 1, b + 1);
                    assert(nm[b] != 34u8);
                }
            } else if j == a + 2 {
                lemma_match_at_byte(h, p, j, 1);
                assert(ni[0] != 58u8);
            } else if 2 <= j < a + 2 {
                assert(nm[j - 2] != 34u8);
            }
        }
    }
}

/// No key starts inside a value without quotes.
proof fn lemma_value_skip(v: Seq<u8>, rest: Seq<u8>, p: Seq<u8>)
    requires
        quote_free(v),
        p.len() > 0,
        p[0] == 34u8,
    ensures
        forall|j: int| 0 <= j < v.len() ==> !matches_at(v + rest, p, j),
{
    assert forall|j: int| 0 <= j < v.len() implies !matches_at(v + rest, p, j) by {
        if matches_at(v + rest, p, j) {
            lemma_match_at_byte(v + rest, p, j, 0);
            assert((v + rest)[j] == v[j]);
        }
    }
}

/// No key starts inside a quoted list of numbers followed by a comma.
proof fn lemma_quoted_skip(v: Seq<u8>, y: Seq<u8>, ni: Seq<u8>, extra: Seq<u8>)
    requires
        forall|k: int| 0 <= k < v.len() ==> (is_digit(#[trigger] v[k]) || v[k] == 44u8 || v[k] == 45u8),
        y.len() > 0,
        y[0] == 44u8,
        word(ni),
    ensures
        forall|j: int|
            0 <= j < v.len() + 2 ==> !matches_at(seq![34u8] + v + seq![34u8] + y, key_bytes(ni) + extra, j),
{
    let x = seq![34u8] + v + seq![34u8];
    let h = x + y;
    let p = key_bytes(ni) + extra;
    assert(p[0] == 34u8 && p[1] == ni[0]);
    assert(97 <= ni[0] <= 122 || ni[0] == 95);
    assert forall|j: int| 0 <= j < v.len() + 2 implies !matches_at(h, p, j) by {
        if matches_at(h, p, j) {
            lemma_match_at_byte(h, p, j, 0);
            lemma_match_at_byte(h, p, j, 1);
            if j == 0 {
                if v.len() > 0 {
                    assert(h[1] == v[0]);
                } else {
                    assert(h[1] == 34u8);
                }
            } else if j <= v.len() {
                assert(h[j] == v[j - 1]);
            } else {
                assert(h[j + 1] == y[0]);
            }
        }
    }
}

/// Where no occurrence of `p` starts in `x`, the text after the first `p`
/// in `x + y` is the text after the first `p` in `y`.
proof fn lemma_after_skip(x: Seq<u8>, y: Seq<u8>, p: Seq<u8>)
    requires
        p.len() > 0,
        forall|j: int| 0 <= j < x.len() ==> !matches_at(x + y, p, j),
    ensures
        after_key(x + y, p) == after_key(y, p),
{
    let t = x + y;
    let n = x.len() as int;
    lemma_find_from(t, p, 0);
    lemma_find_from(y, p, 0);
    assert forall|i: int| n <= i implies matches_at(t, p, i) == matches_at(y, p, i - n) by {
        if i + p.len() <= t.len() {
            assert(t.subrange(i, i + p.len()) =~= y.subrange(i - n, i - n + p.len()));
        }
    }
    match find(t, p) {
        None => {
            assert forall|j: int| 0 <= j && j + p.len() <= y.len() implies !matches_at(y, p, j) by {
                assert(matches_at(t, p, j + n) == matches_at(y, p, j));
            }
            lemma_find_none(y, p);
        },
        Some(i) => {
            assert(i >= n);
            assert(matches_at(y, p, i - n));
            assert forall|j: int| 0 <= j < i - n implies !matches_at(y, p, j) by {
                assert(matches_at(t, p, j + n) == matches_at(y, p, j));
            }
            lemma_find_unique_first(y, p, i - n);
            assert(t.subrange(i + p.len(), t.len() as int) =~= y.subrange(i - n + p.len(), y.len() as int));
        },
    }
}

/// The key right after a non-quote byte is found there.
proof fn lemma_after_hit(o: u8, p: Seq<u8>, y: Seq<u8>)
    requires
        p.len() > 0,
        o != p[0],
    ensures
        after_key(seq![o] + p + y, p) == Some(y),
{
    let h = seq![o] + p + y;
    assert(h.subrange(1, 1 + p.len() as int) =~= p);
    assert(!matches_at(h, p, 0)) by {
        if matches_at(h, p, 0) {
            lemma_match_at_byte(h, p, 0, 0);
        }
    }
    lemma_find_unique_first(h, p, 1);
    assert(h.subrange(1 + p.len() as int, h.len() as int) =~= y);
}

/// The bytes of `decimal(n)`: at least one digit, standing for `n`.
proof fn lemma_decimal_bytes(n: nat)
    ensures
        utf8(decimal(n)).len() > 0,
        all_digits(utf8(decimal(n))),
        digits_value(utf8(decimal(n))) == n,
    decreases n,
{
    let d = crate::text::digit_char((n % 10) as int);
    assert((d as u32) == 48 + n % 10);
    lemma_utf8_ascii(seq![d]);
    let b = (48 + n % 10) as u8;
    assert(utf8(seq![d]) =~= seq![b]);
    if n < 10 {
        assert(decimal(n) == seq![d]);
        assert(seq![b].drop_last() =~= Seq::<u8>::empty());
        assert(digits_value(seq![b]) == digits_value(Seq::<u8>::empty()) * 10 + (b - 48) as nat);
    } else {
        lemma_decimal_bytes(n / 10);
        let head = utf8(decimal(n / 10));
        lemma_utf8_concat(decimal(n / 10), seq![d]);
        assert(decimal(n) == decimal(n / 10) + seq![d]);
        assert(utf8(decimal(n)) =~= head.push(b));
        lemma_digits_grow(head, b);
        assert forall|i: int| 0 <= i < head.len() + 1 implies is_digit(#[trigger] head.push(b)[i]) by {
            if i < head.len() {
                assert(head.push(b)[i] == head[i]);
            }
        }
        assert((n / 10) * 10 + n % 10 == n) by (nonlinear_arith);
    }
}

/// A whole number written by `signed_decimal` reads back as itself.
proof fn lemma_signed_parse(v: int, lo: int, hi: int)
    requires
        lo <= v <= hi,
        v < 0 ==> lo < 0,
    ensures
        parsed_int(utf8(signed_decimal(v)), lo, hi) == Some(v),
        utf8(signed_decimal(v)).len() > 0,
        forall|k: int|
            0 <= k < utf8(signed_decimal(v)).len() ==> (is_digit(#[trigger] utf8(signed_decimal(v))[k]) || (
            k == 0 && v < 0 && utf8(signed_decimal(v))[k] == 45u8)),
{
    let w = utf8(signed_decimal(v));
    if v < 0 {
        let m = (-v) as nat;
        lemma_decimal_bytes(m);
        let ds = utf8(decimal(m));
        lemma_utf8_concat(seq!['-'], decimal(m));
        lemma_utf8_ascii(seq!['-']);
        assert(w =~= seq![45u8] + ds);
        assert(w[0] == 45u8);
        assert(w.drop_first() =~= ds);
        assert forall|k: int| 0 <= k < w.len() implies (is_digit(#[trigger] w[k]) || (k == 0 && v < 0 && w[k]
            == 45u8)) by {
            if k > 0 {
                assert(w[k] == ds[k - 1]);
            }
        }
    } else {
        lemma_decimal_bytes(v as nat);
        assert(is_digit(w[0]));
    }
}

/// The run of digits (and dashes) at the start of a written number followed
/// by a byte that is neither.
proof fn lemma_run_of_number(w: Seq<u8>, rest: Seq<u8>, dash: bool)
    requires
        forall|k: int| 0 <= k < w.len() ==> (is_digit(#[trigger] w[k]) || (dash && w[k] == 45u8)),
        rest.len() > 0,
        !is_digit(rest[0]),
        rest[0] != 45u8,
    ensures
        run_len(w + rest, dash) == w.len(),
        (w + rest).subrange(0, w.len() as int) == w,
{
    let h = w + rest;
    assert forall|j: int| 0 <= j < w.len() implies is_digit(#[trigger] h[j]) || (dash && h[j] == 45u8) by {
        assert(h[j] == w[j]);
    }
    lemma_run_len(h, dash, w.len() as int);
    assert(h.subrange(w.len() as int, h.len() as int) =~= rest);
    assert(h.subrange(0, w.len() as int) =~= w);
}

/// Commas split a text joined at a comma into the pieces of either side.
proof fn lemma_comma_concat(x: Seq<u8>, y: Seq<u8>)
    ensures
        comma_pieces(x + seq![44u8] + y) == comma_pieces(x) + comma_pieces(y),
    decreases x.len(),
{
    let c = seq![44u8];
    let h = x + c + y;
    lemma_find_from(x, c, 0);
    lemma_find_from(h, c, 0);
    assert forall|j: int| 0 <= j < x.len() implies matches_at(h, c, j) == matches_at(x, c, j) by {
        assert(h.subrange(j, j + 1) =~= x.subrange(j, j + 1));
    }
    match find(x, c) {
        Some(i) => {
            assert(matches_at(h, c, i));
            lemma_find_unique_first(h, c, i);
            let x2 = x.subrange(i + 1, x.len() as int);
            lemma_comma_concat(x2, y);
            assert(h.subrange(0, i) =~= x.subrange(0, i));
            assert(h.subrange(i + 1, h.len() as int) =~= x2 + c + y);
            assert(comma_pieces(x) == seq![x.subrange(0, i)] + comma_pieces(x2));
            assert(comma_pieces(h) =~= comma_pieces(x) + comma_pieces(y));
        },
        None => {
            assert(h.subrange(x.len() as int, x.len() as int + 1) =~= c);
            lemma_find_unique_first(h, c, x.len() as int);
            assert(h.subrange(0, x.len() as int) =~= x);
            assert(h.subrange(x.len() as int + 1, h.len() as int) =~= y);
            assert(comma_pieces(x) == seq![x]);
        },
    }
}

proof fn lemma_id_list_concat(a: Seq<Seq<u8>>, b: Seq<Seq<u8>>)
    ensures
        id_list(a + b) == id_list(a) + id_list(b),
    decreases a.len(),
{
    if a.len() == 0 {
        assert(a + b =~= b);
    } else {
        lemma_id_list_concat(a.subrange(1, a.len() as int), b);
        assert((a + b).subrange(1, (a + b).len() as int) =~= a.subrange(1, a.len() as int) + b);
        assert((a + b)[0] == a[0]);
    }
}

/// The ids written by `joined_ids` read back as the same ids, and are
/// written with digits, dashes and commas only.
proof fn lemma_joined_ids(ids: Seq<i64>)
    ensures
        id_list(comma_pieces(utf8(joined_ids(ids)))) == ids,
        forall|k: int|
            0 <= k < utf8(joined_ids(ids)).len() ==> (is_digit(#[trigger] utf8(joined_ids(ids))[k])
                || utf8(joined_ids(ids))[k] == 44u8 || utf8(joined_ids(ids))[k] == 45u8),
    decreases ids.len(),
{
    let u = utf8(joined_ids(ids));
    let c = seq![44u8];
    if ids.len() == 0 {
        assert(u =~= Seq::<u8>::empty());
        assert(find(u, c) is None);
        assert(comma_pieces(u) == seq![u]);
        assert(seq![u].subrange(1, 1) =~= Seq::<Seq<u8>>::empty());
        assert(id_list(Seq::<Seq<u8>>::empty()) == Seq::<i64>::empty());
        assert(parsed_int(seq![u][0], i64::MIN as int, i64::MAX as int) is None);
        assert(id_list(comma_pieces(u)) =~= Seq::<i64>::empty());
    } else {
        let last = ids.last();
        let w = utf8(signed_decimal(last as int));
        lemma_signed_parse(last as int, i64::MIN as int, i64::MAX as int);
        assert forall|j: int| 0 <= j && j + 1 <= w.len() implies !matches_at(w, c, j) by {
            if matches_at(w, c, j) {
                lemma_match_at_byte(w, c, j, 0);
            }
        }
        lemma_find_none(w, c);
        assert(comma_pieces(w) == seq![w]);
        assert(seq![w].subrange(1, 1) =~= Seq::<Seq<u8>>::empty());
        assert(id_list(Seq::<Seq<u8>>::empty()) == Seq::<i64>::empty());
        assert(seq![w][0] == w);
        assert(parsed_int(w, i64::MIN as int, i64::MAX as int) == Some(last as int));
        assert(id_list(seq![w]) =~= seq![last]);
        if ids.len() == 1 {
            assert(joined_ids(ids) == signed_decimal(ids[0] as int));
            assert(ids =~= seq![last]);
        } else {
            let init = ids.drop_last();
            lemma_joined_ids(init);
            let ui = utf8(joined_ids(init));
            lemma_utf8_concat(joined_ids(init), ","@);
            lemma_utf8_concat(joined_ids(init) + ","@, signed_decimal(last as int));
            reveal_strlit(",");
            lemma_utf8_ascii(","@);
            assert(utf8(","@) =~= c);
            assert(u =~= ui + c + w);
            lemma_comma_concat(ui, w);
            lemma_id_list_concat(comma_pieces(ui), comma_pieces(w));
            assert(ids =~= init.push(last));
            assert forall|k: int| 0 <= k < u.len() implies (is_digit(#[trigger] u[k]) || u[k] == 44u8 || u[k]
                == 45u8) by {
                if k < ui.len() {
                    assert(u[k] == ui[k]);
                } else if k > ui.len() {
                    assert(u[k] == w[k - ui.len() - 1]);
                }
            }
        }
    }
}

/// The bytes of the fixed pieces of the settings line.
proof fn lemma_written_literals()
    ensures
        utf8("{\"tree_width\":"@) == seq![123u8] + key_bytes(nm_tree()),
        utf8(",\"col_name_width\":"@) == seq![44u8] + key_bytes(nm_col()),
        utf8(",\"confirm_delete\":"@) == seq![44u8] + key_bytes(nm_confirm()),
        utf8(",\"no_dup_urls\":"@) == seq![44u8] + key_bytes(nm_nodup()),
        utf8(",\"dark_theme\":"@) == seq![44u8] + key_bytes(nm_dark()),
        utf8(",\"show_toolbar\":"@) == seq![44u8] + key_bytes(nm_show()),
        utf8(",\"accordion\":"@) == seq![44u8] + key_bytes(nm_acc()),
        utf8(",\"expanded\":\""@) == seq![44u8] + key_bytes(nm_exp()) + seq![34u8],
        utf8("\",\"active_folder\":"@) == seq![34u8] + (seq![44u8] + key_bytes(nm_act())),
        utf8("}"@) == seq![125u8],
{
    reveal_strlit("{\"tree_width\":");
    lemma_utf8_ascii("{\"tree_width\":"@);
    assert(utf8("{\"tree_width\":"@) =~= seq![123u8] + key_bytes(nm_tree()));
    reveal_strlit(",\"col_name_width\":");
    lemma_utf8_ascii(",\"col_name_width\":"@);
    assert(utf8(",\"col_name_width\":"@) =~= seq![44u8] + key_bytes(nm_col()));
    reveal_strlit(",\"confirm_delete\":");
    lemma_utf8_ascii(",\"confirm_delete\":"@);
    assert(utf8(",\"confirm_delete\":"@) =~= seq![44u8] + key_bytes(nm_confirm()));
    reveal_strlit(",\"no_dup_urls\":");
    lemma_utf8_ascii(",\"no_dup_urls\":"@);
    assert(utf8(",\"no_dup_urls\":"@) =~= seq![44u8] + key_bytes(nm_nodup()));
    reveal_strlit(",\"dark_theme\":");
    lemma_utf8_ascii(",\"dark_theme\":"@);
    assert(utf8(",\"dark_theme\":"@) =~= seq![44u8] + key_bytes(nm_dark()));
    reveal_strlit(",\"show_toolbar\":");
    lemma_utf8_ascii(",\"show_toolbar\":"@);
    assert(utf8(",\"show_toolbar\":"@) =~= seq![44u8] + key_bytes(nm_show()));
    reveal_strlit(",\"accordion\":");
    lemma_utf8_ascii(",\"accordion\":"@);
    assert(utf8(",\"accordion\":"@) =~= seq![44u8] + key_bytes(nm_acc()));
    reveal_strlit(",\"expanded\":\"");
    lemma_utf8_ascii(",\"expanded\":\""@);
    assert(utf8(",\"expanded\":\""@) =~= seq![44u8] + key_bytes(nm_exp()) + seq![34u8]);
    reveal_strlit("\",\"active_folder\":");
    lemma_utf8_ascii("\",\"active_folder\":"@);
    assert(utf8("\",\"active_folder\":"@) =~= seq![34u8] + (seq![44u8] + key_bytes(nm_act())));
    reveal_strlit("}");
    lemma_utf8_ascii("}"@);
    assert(utf8("}"@) =~= seq![125u8]);
}

/// The bytes of the keys looked up in the settings text.
proof fn lemma_key_literals()
    ensures
        utf8("\"col_name_width\":"@) == key_bytes(nm_col()),
        utf8("\"confirm_delete\":"@) == key_bytes(nm_confirm()),
        utf8("\"no_dup_urls\":"@) == key_bytes(nm_nodup()),
        utf8("\"dark_theme\":"@) == key_bytes(nm_dark()),
        utf8("\"show_toolbar\":"@) == key_bytes(nm_show()),
        utf8("\"accordion\":"@) == key_bytes(nm_acc()),
        utf8("\"expanded\":\""@) == key_bytes(nm_exp()) + seq![34u8],
        utf8("\"active_folder\":"@) == key_bytes(nm_act()),
{
    reveal_strlit("\"col_name_width\":");
    lemma_utf8_ascii("\"col_name_width\":"@);
    assert(utf8("\"col_name_width\":"@) =~= key_bytes(nm_col()));
    reveal_strlit("\"confirm_delete\":");
    lemma_utf8_ascii("\"confirm_delete\":"@);
    assert(utf8("\"confirm_delete\":"@) =~= key_bytes(nm_confirm()));
    reveal_strlit("\"no_dup_urls\":");
    lemma_utf8_ascii("\"no_dup_urls\":"@);
    assert(utf8("\"no_dup_urls\":"@) =~= key_bytes(nm_nodup()));
    reveal_strlit("\"dark_theme\":");
    lemma_utf8_ascii("\"dark_theme\":"@);
    assert(utf8("\"dark_theme\":"@) =~= key_bytes(nm_dark()));
    reveal_strlit("\"show_toolbar\":");
    lemma_utf8_ascii("\"show_toolbar\":"@);
    assert(utf8("\"show_toolbar\":"@) =~= key_bytes(nm_show()));
    reveal_strlit("\"accordion\":");
    lemma_utf8_ascii("\"accordion\":"@);
    assert(utf8("\"accordion\":"@) =~= key_bytes(nm_acc()));
    reveal_strlit("\"expanded\":\"");
    lemma_utf8_ascii("\"expanded\":\""@);
    assert(utf8("\"expanded\":\""@) =~= key_bytes(nm_exp()) + seq![34u8]);
    reveal_strlit("\"active_folder\":");
    lemma_utf8_ascii("\"active_folder\":"@);
    assert(utf8("\"active_folder\":"@) =~= key_bytes(nm_act()));
}

/// The key names are names, and no two of them are the same.
proof fn lemma_names()
    ensures
        word(nm_tree()) && word(nm_col()) && word(nm_confirm()) && word(nm_nodup()) && word(nm_dark())
            && word(nm_show()) && word(nm_acc()) && word(nm_exp()) && word(nm_act()),
        nm_tree() != nm_col() && nm_tree() != nm_confirm() && nm_tree() != nm_nodup() && nm_tree() != nm_dark()
            && nm_tree() != nm_show() && nm_tree() != nm_acc() && nm_tree() != nm_exp() && nm_tree() != nm_act(),
        nm_col() != nm_confirm() && nm_col() != nm_nodup() && nm_col() != nm_dark() && nm_col() != nm_show()
            && nm_col() != nm_acc() && nm_col() != nm_exp() && nm_col() != nm_act(),
        nm_confirm() != nm_nodup() && nm_confirm() != nm_dark() && nm_confirm() != nm_show() && nm_confirm()
            != nm_acc() && nm_confirm() != nm_exp() && nm_confirm() != nm_act(),
        nm_nodup() != nm_dark() && nm_nodup() != nm_show() && nm_nodup() != nm_acc() && nm_nodup() != nm_exp()
            && nm_nodup() != nm_act(),
        nm_dark() != nm_show() && nm_dark() != nm_acc() && nm_dark() != nm_exp() && nm_dark() != nm_act(),
        nm_show() != nm_acc() && nm_show() != nm_exp() && nm_show() != nm_act(),
        nm_acc() != nm_exp() && nm_acc() != nm_act(),
        nm_exp() != nm_act(),
{
    assert(nm_tree()[0] != nm_dark()[0]);
    assert(nm_col()[2] != nm_confirm()[2]);
}

spec fn act_value(st: Settings) -> int {
    match st.active_folder {
        Some(a) => a as int,
        None => 0,
    }
}

spec fn tail_act(st: Settings) -> Seq<char> {
    "\",\"active_folder\":"@ + (signed_decimal(act_value(st)) + "}"@)
}

spec fn tail_exp(st: Settings) -> Seq<char> {
    ",\"expanded\":\""@ + (joined_ids(st.expanded@) + tail_act(st))
}

spec fn tail_acc(st: Settings) -> Seq<char> {
    ",\"accordion\":"@ + (bit(st.accordion) + tail_exp(st))
}

spec fn tail_show(st: Settings) -> Seq<char> {
    ",\"show_toolbar\":"@ + (bit(st.show_toolbar) + tail_acc(st))
}

spec fn tail_dark(st: Settings) -> Seq<char> {
    ",\"dark_theme\":"@ + (bit(st.dark_theme) + tail_show(st))
}

spec fn tail_nodup(st: Settings) -> Seq<char> {
    ",\"no_dup_urls\":"@ + (bit(st.no_dup_urls) + tail_dark(st))
}

spec fn tail_confirm(st: Settings) -> Seq<char> {
    ",\"confirm_delete\":"@ + (bit(st.confirm_delete) + tail_nodup(st))
}

spec fn tail_col(st: Settings) -> Seq<char> {
    ",\"col_name_width\":"@ + (signed_decimal(st.col_name_width as int) + tail_confirm(st))
}

proof fn lemma_assoc(x: Seq<char>, y: Seq<char>, z: Seq<char>)
    ensures
        (x + y) + z == x + (y + z),
{
    assert((x + y) + z =~= x + (y + z));
}

proof fn lemma_text_tails(tw: Seq<char>, st: Settings)
    ensures
        settings_text(tw, st) == "{\"tree_width\":"@ + (tw + tail_col(st)),
{
    // The line as written, piece by piece from the left ...
    let p1 = "{\"tree_width\":"@;
    let p2 = p1 + tw;
    let p3 = p2 + ",\"col_name_width\":"@;
    let p4 = p3 + signed_decimal(st.col_name_width as int);
    let p5 = p4 + ",\"confirm_delete\":"@;
    let p6 = p5 + bit(st.confirm_delete);
    let p7 = p6 + ",\"no_dup_urls\":"@;
    let p8 = p7 + bit(st.no_dup_urls);
    let p9 = p8 + ",\"dark_theme\":"@;
    let p10 = p9 + bit(st.dark_theme);
    let p11 = p10 + ",\"show_toolbar\":"@;
    let p12 = p11 + bit(st.show_toolbar);
    let p13 = p12 + ",\"accordion\":"@;
    let p14 = p13 + bit(st.accordion);
    let p15 = p14 + ",\"expanded\":\""@;
    let p16 = p15 + joined_ids(st.expanded@);
    let p17 = p16 + "\",\"active_folder\":"@;
    let p18 = p17 + signed_decimal(act_value(st));
    let p19 = p18 + "}"@;
    assert(settings_text(tw, st) == p19);
    // ... and regrouped from the right.
    let r18 = "}"@;
    lemma_assoc(p17, signed_decimal(act_value(st)), r18);
    let r17 = signed_decimal(act_value(st)) + r18;
    lemma_assoc(p16, "\",\"active_folder\":"@, r17);
    let r16 = "\",\"active_folder\":"@ + r17;
    lemma_assoc(p15, joined_ids(st.expanded@), r16);
    let r15 = joined_ids(st.expanded@) + r16;
    lemma_assoc(p14, ",\"expanded\":\""@, r15);
    let r14 = ",\"expanded\":\""@ + r15;
    lemma_assoc(p13, bit(st.accordion), r14);
    let r13 = bit(st.accordion) + r14;
    lemma_assoc(p12, ",\"accordion\":"@, r13);
    let r12 = ",\"accordion\":"@ + r13;
    lemma_assoc(p11, bit(st.show_toolbar), r12);
    let r11 = bit(st.show_toolbar) + r12;
    lemma_assoc(p10, ",\"show_toolbar\":"@, r11);
    let r10 = ",\"show_toolbar\":"@ + r11;
    lemma_assoc(p9, bit(st.dark_theme), r10);
    let r9 = bit(st.dark_theme) + r10;
    lemma_assoc(p8, ",\"dark_theme\":"@, r9);
    let r8 = ",\"dark_theme\":"@ + r9;
    lemma_assoc(p7, bit(st.no_dup_urls), r8);
    let r7 = bit(st.no_dup_urls) + r8;
    lemma_assoc(p6, ",\"no_dup_urls\":"@, r7);
    let r6 = ",\"no_dup_urls\":"@ + r7;
    lemma_assoc(p5, bit(st.confirm_delete), r6);
    let r5 = bit(st.confirm_delete) + r6;
    lemma_assoc(p4, ",\"confirm_delete\":"@, r5);
    let r4 = ",\"confirm_delete\":"@ + r5;
    lemma_assoc(p3, signed_decimal(st.col_name_width as int), r4);
    let r3 = signed_decimal(st.col_name_width as int) + r4;
    lemma_assoc(p2, ",\"col_name_width\":"@, r3);
    let r2 = ",\"col_name_width\":"@ + r3;
    lemma_assoc(p1, tw, r2);
    let r1 = tw + r2;
    assert(r1 == tw + tail_col(st));
}

/// `utf8(l + (v + t))` piece by piece.
proof fn lemma_three(l: Seq<char>, v: Seq<char>, t: Seq<char>)
    ensures
        utf8(l + (v + t)) == utf8(l) + (utf8(v) + utf8(t)),
{
    lemma_utf8_concat(l, v + t);
    lemma_utf8_concat(v, t);
}

/// The bytes of the settings line, key by key.
proof fn lemma_layout(tw: Seq<char>, st: Settings)
    ensures
        utf8(settings_text(tw, st)) == (seq![123u8] + key_bytes(nm_tree())) + (utf8(tw) + utf8(tail_col(st))),
        utf8(tail_col(st)) == (seq![44u8] + key_bytes(nm_col())) + (utf8(signed_decimal(st.col_name_width as int))
            + utf8(tail_confirm(st))),
        utf8(tail_confirm(st)) == (seq![44u8] + key_bytes(nm_confirm())) + (utf8(bit(st.confirm_delete)) + utf8(
            tail_nodup(st),
        )),
        utf8(tail_nodup(st)) == (seq![44u8] + key_bytes(nm_nodup())) + (utf8(bit(st.no_dup_urls)) + utf8(
            tail_dark(st),
        )),
        utf8(tail_dark(st)) == (seq![44u8] + key_bytes(nm_dark())) + (utf8(bit(st.dark_theme)) + utf8(
            tail_show(st),
        )),
        utf8(tail_show(st)) == (seq![44u8] + key_bytes(nm_show())) + (utf8(bit(st.show_toolbar)) + utf8(
            tail_acc(st),
        )),
        utf8(tail_acc(st)) == (seq![44u8] + key_bytes(nm_acc())) + (utf8(bit(st.accordion)) + utf8(tail_exp(st))),
        utf8(tail_exp(st)) == (seq![44u8] + key_bytes(nm_exp()) + seq![34u8]) + (utf8(joined_ids(st.expanded@))
            + utf8(tail_act(st))),
        utf8(tail_act(st)) == (seq![34u8] + (seq![44u8] + key_bytes(nm_act()))) + (utf8(
            signed_decimal(act_value(st)),
        ) + seq![125u8]),
{
    lemma_written_literals();
    lemma_text_tails(tw, st);
    lemma_three("{\"tree_width\":"@, tw, tail_col(st));
    lemma_three(",\"col_name_width\":"@, signed_decimal(st.col_name_width as int), tail_confirm(st));
    lemma_three(",\"confirm_delete\":"@, bit(st.confirm_delete), tail_nodup(st));
    lemma_three(",\"no_dup_urls\":"@, bit(st.no_dup_urls), tail_dark(st));
    lemma_three(",\"dark_theme\":"@, bit(st.dark_theme), tail_show(st));
    lemma_three(",\"show_toolbar\":"@, bit(st.show_toolbar), tail_acc(st));
    lemma_three(",\"accordion\":"@, bit(st.accordion), tail_exp(st));
    lemma_three(",\"expanded\":\""@, joined_ids(st.expanded@), tail_act(st));
    lemma_three("\",\"active_folder\":"@, signed_decimal(act_value(st)), "}"@);
}

/// Looking a key up past the key `o"nm":` of another name and its value
/// without quotes.
proof fn lemma_level_skip(o: u8, nm: Seq<u8>, v: Seq<u8>, rest: Seq<u8>, ni: Seq<u8>, extra: Seq<u8>)
    requires
        o != 34u8,
        word(nm),
        word(ni),
        nm != ni,
        quote_free(v),
    ensures
        after_key((seq![o] + key_bytes(nm)) + (v + rest), key_bytes(ni) + extra) == after_key(
            rest,
            key_bytes(ni) + extra,
        ),
{
    let p = key_bytes(ni) + extra;
    lemma_key_skip(o, nm, ni, extra, v + rest);
    lemma_after_skip(seq![o] + key_bytes(nm), v + rest, p);
    lemma_value_skip(v, rest, p);
    lemma_after_skip(v, rest, p);
}

/// What the settings line holds besides its keys: a tree width without
/// quotes, and numbers and switches written with digits, dashes and commas.
proof fn lemma_values(tw: Seq<char>, st: Settings)
    requires
        forall|i: int| 0 <= i < tw.len() ==> tw[i] != '"',
        st.col_name_width >= 0,
    ensures
        quote_free(utf8(tw)),
        quote_free(utf8(signed_decimal(st.col_name_width as int))),
        quote_free(utf8(bit(st.confirm_delete))),
        quote_free(utf8(bit(st.no_dup_urls))),
        quote_free(utf8(bit(st.dark_theme))),
        quote_free(utf8(bit(st.show_toolbar))),
        quote_free(utf8(bit(st.accordion))),
        forall|b: bool| utf8(#[trigger] bit(b)) == if b { seq![49u8] } else { seq![48u8] },
{
    assert forall|i: int| 0 <= i < tw.len() implies (#[trigger] tw[i] as u32) != 34u8 as u32 by {
        if tw[i] as u32 == 34 {
            vstd::utf8::char_u32_cast(tw[i], 34);
            vstd::utf8::char_u32_cast('"', 34);
        }
    }
    lemma_utf8_ascii_byte(tw, 34u8);
    lemma_signed_parse(st.col_name_width as int, i32::MIN as int, i32::MAX as int);
    reveal_strlit("1");
    reveal_strlit("0");
    lemma_utf8_ascii("1"@);
    lemma_utf8_ascii("0"@);
    assert(utf8("1"@) =~= seq![49u8]);
    assert(utf8("0"@) =~= seq![48u8]);
}

/// The column width reads back, where reading keeps it as it is.
proof fn lemma_read_col(tw: Seq<char>, st: Settings)
    requires
        forall|i: int| 0 <= i < tw.len() ==> tw[i] != '"',
        st.col_name_width >= 0,
    ensures
        col_width_of(utf8(settings_text(tw, st))) as int == clamp(st.col_name_width as int, 80, 700),
{
    lemma_layout(tw, st);
    lemma_values(tw, st);
    lemma_names();
    lemma_key_literals();
    let p = key_bytes(nm_col());
    assert(p =~= p + Seq::<u8>::empty());
    lemma_level_skip(123u8, nm_tree(), utf8(tw), utf8(tail_col(st)), nm_col(), Seq::<u8>::empty());
    let w = utf8(signed_decimal(st.col_name_width as int));
    let next = utf8(tail_confirm(st));
    lemma_after_hit(44u8, p, w + next);
    lemma_signed_parse(st.col_name_width as int, i32::MIN as int, i32::MAX as int);
    assert(next[0] == 44u8);
    lemma_run_of_number(w, next, false);
}

/// A switch reads back as it was written.
proof fn lemma_switch_back(b: bool, t: Seq<char>)
    ensures
        switch_on(utf8(bit(b) + t)) == b,
{
    let x = bit(b) + t;
    reveal_strlit("1");
    reveal_strlit("0");
    reveal_strlit("true");
    vstd::utf8::encode_utf8_decode_utf8(x);
    assert(x[0] == if b { '1' } else { '0' });
    crate::text::lemma_leading_ws(x, 0);
    assert(str_trim_start(x) =~= x);
    if x.len() >= 4 {
        assert(x.subrange(0, 4)[0] == x[0]);
    }
}

proof fn lemma_read_confirm(tw: Seq<char>, st: Settings)
    requires
        forall|i: int| 0 <= i < tw.len() ==> tw[i] != '"',
        st.col_name_width >= 0,
    ensures
        switch_of(utf8(settings_text(tw, st)), "\"confirm_delete\":"@, true) == st.confirm_delete,
{
    lemma_layout(tw, st);
    lemma_values(tw, st);
    lemma_names();
    lemma_key_literals();
    let p = key_bytes(nm_confirm());
    assert(p =~= p + Seq::<u8>::empty());
    lemma_level_skip(123u8, nm_tree(), utf8(tw), utf8(tail_col(st)), nm_confirm(), Seq::<u8>::empty());
    lemma_level_skip(44u8, nm_col(), utf8(signed_decimal(st.col_name_width as int)), utf8(tail_confirm(st)), nm_confirm(), Seq::<u8>::empty());
    lemma_after_hit(44u8, p, utf8(bit(st.confirm_delete)) + utf8(tail_nodup(st)));
    lemma_utf8_concat(bit(st.confirm_delete), tail_nodup(st));
    lemma_switch_back(st.confirm_delete, tail_nodup(st));
}

proof fn lemma_read_nodup(tw: Seq<char>, st: Settings)
    requires
        forall|i: int| 0 <= i < tw.len() ==> tw[i] != '"',
        st.col_name_width >= 0,
    ensures
        switch_of(utf8(settings_text(tw, st)), "\"no_dup_urls\":"@, false) == st.no_dup_urls,
{
    lemma_layout(tw, st);
    lemma_values(tw, st);
    lemma_names();
    lemma_key_literals();
    let p = key_bytes(nm_nodup());
    assert(p =~= p + Seq::<u8>::empty());
    lemma_level_skip(123u8, nm_tree(), utf8(tw), utf8(tail_col(st)), nm_nodup(), Seq::<u8>::empty());
    lemma_level_skip(44u8, nm_col(), utf8(signed_decimal(st.col_name_width as int)), utf8(tail_confirm(st)), nm_nodup(), Seq::<u8>::empty());
    lemma_level_skip(44u8, nm_confirm(), utf8(bit(st.confirm_delete)), utf8(tail_nodup(st)), nm_nodup(), Seq::<u8>::empty());
    lemma_after_hit(44u8, p, utf8(bit(st.no_dup_urls)) + utf8(tail_dark(st)));
    lemma_utf8_concat(bit(st.no_dup_urls), tail_dark(st));
    lemma_switch_back(st.no_dup_urls, tail_dark(st));
}

proof fn lemma_read_dark(tw: Seq<char>, st: Settings)
    requires
        forall|i: int| 0 <= i < tw.len() ==> tw[i] != '"',
        st.col_name_width >= 0,
    ensures
        switch_of(utf8(settings_text(tw, st)), "\"dark_theme\":"@, false) == st.dark_theme,
{
    lemma_layout(tw, st);
    lemma_values(tw, st);
    lemma_names();
    lemma_key_literals();
    let p = key_bytes(nm_dark());
    assert(p =~= p + Seq::<u8>::empty());
    lemma_level_skip(123u8, nm_tree(), utf8(tw), utf8(tail_col(st)), nm_dark(), Seq::<u8>::empty());
    lemma_level_skip(44u8, nm_col(), utf8(signed_decimal(st.col_name_width as int)), utf8(tail_confirm(st)), nm_dark(), Seq::<u8>::empty());
    lemma_level_skip(44u8, nm_confirm(), utf8(bit(st.confirm_delete)), utf8(tail_nodup(st)), nm_dark(), Seq::<u8>::empty());
    lemma_level_skip(44u8, nm_nodup(), utf8(bit(st.no_dup_urls)), utf8(tail_dark(st)), nm_dark(), Seq::<u8>::empty());
    lemma_after_hit(44u8, p, utf8(bit(st.dark_theme)) + utf8(tail_show(st)));
    lemma_utf8_concat(bit(st.dark_theme), tail_show(st));
    lemma_switch_back(st.dark_theme, tail_show(st));
}

proof fn lemma_read_show(tw: Seq<char>, st: Settings)
    requires
        forall|i: int| 0 <= i < tw.len() ==> tw[i] != '"',
        st.col_name_width >= 0,
    ensures
        switch_of(utf8(settings_text(tw, st)), "\"show_toolbar\":"@, true) == st.show_toolbar,
{
    lemma_layout(tw, st);
    lemma_values(tw, st);
    lemma_names();
    lemma_key_literals();
    let p = key_bytes(nm_show());
    assert(p =~= p + Seq::<u8>::empty());
    lemma_level_skip(123u8, nm_tree(), utf8(tw), utf8(tail_col(st)), nm_show(), Seq::<u8>::empty());
    lemma_level_skip(44u8, nm_col(), utf8(signed_decimal(st.col_name_width as int)), utf8(tail_confirm(st)), nm_show(), Seq::<u8>::empty());
    lemma_level_skip(44u8, nm_confirm(), utf8(bit(st.confirm_delete)), utf8(tail_nodup(st)), nm_show(), Seq::<u8>::empty());
    lemma_level_skip(44u8, nm_nodup(), utf8(bit(st.no_dup_urls)), utf8(tail_dark(st)), nm_show(), Seq::<u8>::empty());
    lemma_level_skip(44u8, nm_dark(), utf8(bit(st.dark_theme)), utf8(tail_show(st)), nm_show(), Seq::<u8>::empty());
    lemma_after_hit(44u8, p, utf8(bit(st.show_toolbar)) + utf8(tail_acc(st)));
    lemma_utf8_concat(bit(st.show_toolbar), tail_acc(st));
    lemma_switch_back(st.show_toolbar, tail_acc(st));
}

proof fn lemma_read_acc(tw: Seq<char>, st: Settings)
    requires
        forall|i: int| 0 <= i < tw.len() ==> tw[i] != '"',
        st.col_name_width >= 0,
    ensures
        switch_of(utf8(settings_text(tw, st)), "\"accordion\":"@, false) == st.accordion,
{
    lemma_layout(tw, st);
    lemma_values(tw, st);
    lemma_names();
    lemma_key_literals();
    let p = key_bytes(nm_acc());
    assert(p =~= p + Seq::<u8>::empty());
    lemma_level_skip(123u8, nm_tree(), utf8(tw), utf8(tail_col(st)), nm_acc(), Seq::<u8>::empty());
    lemma_level_skip(44u8, nm_col(), utf8(signed_decimal(st.col_name_width as int)), utf8(tail_confirm(st)), nm_acc(), Seq::<u8>::empty());
    lemma_level_skip(44u8, nm_confirm(), utf8(bit(st.confirm_delete)), utf8(tail_nodup(st)), nm_acc(), Seq::<u8>::empty());
    lemma_level_skip(44u8, nm_nodup(), utf8(bit(st.no_dup_urls)), utf8(tail_dark(st)), nm_acc(), Seq::<u8>::empty());
    lemma_level_skip(44u8, nm_dark(), utf8(bit(st.dark_theme)), utf8(tail_show(st)), nm_acc(), Seq::<u8>::empty());
    lemma_level_skip(44u8, nm_show(), utf8(bit(st.show_toolbar)), utf8(tail_acc(st)), nm_acc(), Seq::<u8>::empty());
    lemma_after_hit(44u8, p, utf8(bit(st.accordion)) + utf8(tail_exp(st)));
    lemma_utf8_concat(bit(st.accordion), tail_exp(st));
    lemma_switch_back(st.accordion, tail_exp(st));
}

/// The open folders read back.
proof fn lemma_read_expanded(tw: Seq<char>, st: Settings)
    requires
        forall|i: int| 0 <= i < tw.len() ==> tw[i] != '"',
        st.col_name_width >= 0,
    ensures
        expanded_of(utf8(settings_text(tw, st))) == st.expanded@,
{
    lemma_layout(tw, st);
    lemma_values(tw, st);
    lemma_names();
    lemma_key_literals();
    let p = key_bytes(nm_exp()) + seq![34u8];
    lemma_level_skip(123u8, nm_tree(), utf8(tw), utf8(tail_col(st)), nm_exp(), seq![34u8]);
    lemma_level_skip(44u8, nm_col(), utf8(signed_decimal(st.col_name_width as int)), utf8(tail_confirm(st)), nm_exp(), seq![34u8]);
    lemma_level_skip(44u8, nm_confirm(), utf8(bit(st.confirm_delete)), utf8(tail_nodup(st)), nm_exp(), seq![34u8]);
    lemma_level_skip(44u8, nm_nodup(), utf8(bit(st.no_dup_urls)), utf8(tail_dark(st)), nm_exp(), seq![34u8]);
    lemma_level_skip(44u8, nm_dark(), utf8(bit(st.dark_theme)), utf8(tail_show(st)), nm_exp(), seq![34u8]);
    lemma_level_skip(44u8, nm_show(), utf8(bit(st.show_toolbar)), utf8(tail_acc(st)), nm_exp(), seq![34u8]);
    lemma_level_skip(44u8, nm_acc(), utf8(bit(st.accordion)), utf8(tail_exp(st)), nm_exp(), seq![34u8]);
    let uj = utf8(joined_ids(st.expanded@));
    let ta = utf8(tail_act(st));
    assert(seq![44u8] + key_bytes(nm_exp()) + seq![34u8] =~= seq![44u8] + p);
    lemma_after_hit(44u8, p, uj + ta);
    lemma_joined_ids(st.expanded@);
    let rest = uj + ta;
    let q = seq![34u8];
    assert(ta[0] == 34u8);
    assert(rest.subrange(uj.len() as int, uj.len() as int + 1) =~= q);
    assert forall|j: int| 0 <= j < uj.len() implies !matches_at(rest, q, j) by {
        if matches_at(rest, q, j) {
            lemma_match_at_byte(rest, q, j, 0);
            assert(rest[j] == uj[j]);
        }
    }
    lemma_find_unique_first(rest, q, uj.len() as int);
    assert(rest.subrange(0, uj.len() as int) =~= uj);
}

/// The open folder reads back, where it has a positive id.
proof fn lemma_read_active(tw: Seq<char>, st: Settings)
    requires
        forall|i: int| 0 <= i < tw.len() ==> tw[i] != '"',
        st.col_name_width >= 0,
    ensures
        active_of(utf8(settings_text(tw, st))) == kept_folder(st.active_folder),
{
    lemma_layout(tw, st);
    lemma_values(tw, st);
    lemma_names();
    lemma_key_literals();
    let p = key_bytes(nm_act());
    let e = Seq::<u8>::empty();
    assert(p =~= p + e);
    lemma_level_skip(123u8, nm_tree(), utf8(tw), utf8(tail_col(st)), nm_act(), e);
    lemma_level_skip(44u8, nm_col(), utf8(signed_decimal(st.col_name_width as int)), utf8(tail_confirm(st)), nm_act(), e);
    lemma_level_skip(44u8, nm_confirm(), utf8(bit(st.confirm_delete)), utf8(tail_nodup(st)), nm_act(), e);
    lemma_level_skip(44u8, nm_nodup(), utf8(bit(st.no_dup_urls)), utf8(tail_dark(st)), nm_act(), e);
    lemma_level_skip(44u8, nm_dark(), utf8(bit(st.dark_theme)), utf8(tail_show(st)), nm_act(), e);
    lemma_level_skip(44u8, nm_show(), utf8(bit(st.show_toolbar)), utf8(tail_acc(st)), nm_act(), e);
    lemma_level_skip(44u8, nm_acc(), utf8(bit(st.accordion)), utf8(tail_exp(st)), nm_act(), e);
    // Past the open-folder list, which is quoted.
    let uj = utf8(joined_ids(st.expanded@));
    let ua = utf8(signed_decimal(act_value(st)));
    let y = (seq![44u8] + p) + (ua + seq![125u8]);
    assert(utf8(tail_act(st)) =~= seq![34u8] + y);
    let inner = seq![34u8] + (uj + utf8(tail_act(st)));
    assert(utf8(tail_exp(st)) =~= (seq![44u8] + key_bytes(nm_exp())) + inner);
    lemma_key_skip(44u8, nm_exp(), nm_act(), e, inner);
    lemma_after_skip(seq![44u8] + key_bytes(nm_exp()), inner, p);
    lemma_joined_ids(st.expanded@);
    assert(inner =~= seq![34u8] + uj + seq![34u8] + y);
    lemma_quoted_skip(uj, y, nm_act(), e);
    lemma_after_skip(seq![34u8] + uj + seq![34u8], y, p);
    lemma_after_hit(44u8, p, ua + seq![125u8]);
    lemma_signed_parse(act_value(st), i64::MIN as int, i64::MAX as int);
    lemma_run_of_number(ua, seq![125u8], true);
}

/// The open folder as reading keeps it: only a positive id opens one.
pub open spec fn kept_folder(a: Option<i64>) -> Option<i64> {
    match a {
        Some(id) => if id > 0 {
            Some(id)
        } else {
            None
        },
        None => None,
    }
}

/// Settings written back and read again are the settings written, for a
/// tree width written without quotes and a column width of 0 or more: the
/// column width comes back kept between 80 and 700, the open folder only
/// where its id is positive, and everything else as it was. Where the width
/// is already in that range and the folder id positive (or there is none),
/// the text holds `st` itself in the sense of `parse_settings`.
pub proof fn law_settings_read_back(tree_width: Seq<char>, st: Settings)
    requires
        forall|i: int| 0 <= i < tree_width.len() ==> tree_width[i] != '"',
        st.col_name_width >= 0,
    ensures
        ({
            let b = utf8(settings_text(tree_width, st));
            &&& col_width_of(b) as int == clamp(st.col_name_width as int, 80, 700)
            &&& switch_of(b, "\"confirm_delete\":"@, true) == st.confirm_delete
            &&& switch_of(b, "\"no_dup_urls\":"@, false) == st.no_dup_urls
            &&& switch_of(b, "\"dark_theme\":"@, false) == st.dark_theme
            &&& switch_of(b, "\"show_toolbar\":"@, true) == st.show_toolbar
            &&& switch_of(b, "\"accordion\":"@, false) == st.accordion
            &&& expanded_of(b) == st.expanded@
            &&& active_of(b) == kept_folder(st.active_folder)
        }),
        80 <= st.col_name_width <= 700 && kept_folder(st.active_folder) == st.active_folder ==> settings_hold(
            st,
            utf8(settings_text(tree_width, st)),
        ),
{
    lemma_read_col(tree_width, st);
    lemma_read_confirm(tree_width, st);
    lemma_read_nodup(tree_width, st);
    lemma_read_dark(tree_width, st);
    lemma_read_show(tree_width, st);
    lemma_read_acc(tree_width, st);
    lemma_read_expanded(tree_width, st);
    lemma_read_active(tree_width, st);
}

} // verus!
