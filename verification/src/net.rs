//! Rules of the favicon fetch and of link checks: which host a URL names,
//! how a host becomes a file name, where icons are looked for, which bytes
//! are kept, and how an answer of the server reads.

use vstd::prelude::*;
use vstd::string::StringSliceAdditionalSpecFns;
use vstd::utf8::*;
use vstd::string::{StrSliceExecFns, StringExecFns};
use crate::text::{
    find, find_bytes, lemma_ascii_boundary, lemma_find_from, lemma_match_boundaries, lemma_str_bytes,
    str_lowercase, str_trim, substr, to_lowercase, trim, utf8, ascii_bytes, char_string, find_str,
    decimal, decimal_string,
};

verus! {

/// The part of `b` after its first `://`, or all of `b`.
pub open spec fn after_scheme(b: Seq<u8>) -> Seq<u8> {
    match find(b, seq![58u8, 47u8, 47u8]) {
        Some(p) => b.subrange(p + 3, b.len() as int),
        None => b,
    }
}

/// The part of `b` before its first byte `c`, or all of `b`.
pub open spec fn before_byte(b: Seq<u8>, c: u8) -> Seq<u8> {
    match find(b, seq![c]) {
        Some(i) => b.subrange(0, i),
        None => b,
    }
}

pub open spec fn www_prefix() -> Seq<u8> {
    seq![119u8, 119u8, 119u8, 46u8]
}

/// `b` without every leading `www.`.
pub open spec fn strip_www(b: Seq<u8>) -> Seq<u8>
    decreases b.len(),
{
    if b.len() >= 4 && b.subrange(0, 4) == www_prefix() {
        strip_www(b.subrange(4, b.len() as int))
    } else {
        b
    }
}

/// The host named by the (trimmed) URL bytes `b`: after the scheme, before
/// the path and the port, without leading `www.`.
pub open spec fn host_bytes(b: Seq<u8>) -> Seq<u8> {
    strip_www(before_byte(before_byte(after_scheme(b), 47u8), 58u8))
}

pub(crate) fn before_byte_str(s: &str, c: u8) -> (r: &str)
    requires
        c < 0x80,
    ensures
        r.spec_bytes() == before_byte(s.spec_bytes(), c),
{
    let cv: Vec<u8> = vec![c];
    assert(cv@ =~= seq![c]);
    proof {
        lemma_str_bytes(s);
        lemma_find_from(s.spec_bytes(), seq![c], 0);
    }
    match find_bytes(s.as_bytes(), cv.as_slice()) {
        Some(i) => {
            proof {
                assert(s.spec_bytes().subrange(i as int, i + 1)[0] == c);
                lemma_ascii_boundary(s.spec_bytes(), i as int);
            }
            substr(s, 0, i)
        },
        None => s,
    }
}

/// The lower-cased host of `url`, or `None` where it has none.
pub fn extract_domain(url: &str) -> (r: Option<String>)
    ensures
        ({
            let h = host_bytes(utf8(str_trim(url@)));
            &&& r is None <==> h.len() == 0
            &&& r matches Some(d) ==> d@ == str_lowercase(decode_utf8(h))
        }),
{
    let t = trim(url);
    let sep: Vec<u8> = vec![58u8, 47u8, 47u8];
    assert(sep@ =~= seq![58u8, 47u8, 47u8]);
    proof {
        lemma_str_bytes(t);
        lemma_find_from(t.spec_bytes(), sep@, 0);
    }
    let tb = t.as_bytes();
    let a: &str = match find_bytes(tb, sep.as_slice()) {
        Some(p) => {
            proof {
                assert(ascii_bytes(sep@));
                lemma_match_boundaries(t.spec_bytes(), sep@, p as int);
            }
            assert(p + 3 <= tb.len());
            substr(t, p + 3, tb.len())
        },
        None => t,
    };
    assert(a.spec_bytes() == after_scheme(t.spec_bytes()));
    let b = before_byte_str(a, 47u8);
    let c = before_byte_str(b, 58u8);
    let mut h: &str = c;
    let www: Vec<u8> = vec![119u8, 119u8, 119u8, 46u8];
    assert(www@ =~= www_prefix());
    loop
        invariant
            www@ == www_prefix(),
            strip_www(h.spec_bytes()) == strip_www(c.spec_bytes()),
        ensures
            h.spec_bytes() == strip_www(c.spec_bytes()),
        decreases h.spec_bytes().len(),
    {
        proof {
            lemma_str_bytes(h);
        }
        let hb = h.as_bytes();
        let n = hb.len();
        if n >= 4 && hb[0] == 119u8 && hb[1] == 119u8 && hb[2] == 119u8 && hb[3] == 46u8 {
            assert(h.spec_bytes().subrange(0, 4) =~= www_prefix());
            proof {
                lemma_ascii_boundary(h.spec_bytes(), 3);
            }
            h = substr(h, 4, n);
        } else {
            assert(h.spec_bytes().len() < 4 || h.spec_bytes().subrange(0, 4) != www_prefix()) by {
                if h.spec_bytes().len() >= 4 && h.spec_bytes().subrange(0, 4) == www_prefix() {
                    assert(h.spec_bytes().subrange(0, 4)[3] == hb[3]);
                    assert(h.spec_bytes().subrange(0, 4)[0] == hb[0]);
                    assert(h.spec_bytes().subrange(0, 4)[1] == hb[1]);
                    assert(h.spec_bytes().subrange(0, 4)[2] == hb[2]);
                }
            }
            break;
        }
    }
    proof {
        encode_utf8_decode_utf8(h@);
    }
    if h.as_bytes().len() == 0 {
        None
    } else {
        Some(to_lowercase(h))
    }
}

/// A host character kept in a file name: ASCII letters and digits, `.` and
/// `-`; anything else becomes `_`.
pub open spec fn file_name_char(c: char) -> char {
    if ('a' <= c && c <= 'z') || ('A' <= c && c <= 'Z') || ('0' <= c && c <= '9') || c == '.' || c == '-' {
        c
    } else {
        '_'
    }
}

/// `domain` with every character that is not an ASCII letter or digit, `.`
/// or `-` replaced by `_`.
pub fn sanitize_domain(domain: &str) -> (r: String)
    ensures
        r@ == domain@.map_values(|c: char| file_name_char(c)),
{
    let mut out = String::new();
    let n = domain.unicode_len();
    let mut i: usize = 0;
    while i < n
        invariant
            n == domain@.len(),
            i <= n,
            out@ == domain@.subrange(0, i as int).map_values(|c: char| file_name_char(c)),
        decreases n - i,
    {
        let c = domain.get_char(i);
        let k = if (c >= 'a' && c <= 'z') || (c >= 'A' && c <= 'Z') || (c >= '0' && c <= '9') || c == '.'
            || c == '-' {
            c
        } else {
            '_'
        };
        let ks = char_string(k);
        out.append(ks.as_str());
        i += 1;
        assert(domain@.subrange(0, i as int) =~= domain@.subrange(0, i - 1).push(c));
        assert(out@ =~= domain@.subrange(0, i as int).map_values(|c: char| file_name_char(c)));
    }
    assert(domain@.subrange(0, n as int) =~= domain@);
    out
}

/// Bytes that start like a PNG file: `89 50 4E 47`.
pub open spec fn png_magic(b: Seq<u8>) -> bool {
    b.len() >= 4 && b[0] == 0x89u8 && b[1] == 0x50u8 && b[2] == 0x4Eu8 && b[3] == 0x47u8
}

/// A cached icon is kept only when it is a PNG file, which is all that
/// [`prepare_image`] writes.
pub fn is_valid_image(bytes: &[u8]) -> (r: bool)
    ensures
        r == png_magic(bytes@),
{
    bytes.len() >= 4 && bytes[0] == 0x89u8 && bytes[1] == 0x50u8 && bytes[2] == 0x4Eu8 && bytes[3] == 0x47u8
}

/// What decoding `data` with the `image` crate (format guessed from the
/// bytes) and encoding the picture as PNG gives: `None` where either step
/// fails.
pub uninterp spec fn png_reencoding(data: Seq<u8>) -> Option<Seq<u8>>;

/// The eight bytes every PNG file opens with.
pub open spec fn png_signature() -> Seq<u8> {
    seq![137u8, 80u8, 78u8, 71u8, 13u8, 10u8, 26u8, 10u8]
}

/// `image::load_from_memory` followed by `DynamicImage::write_to` in PNG
/// format into a fresh buffer.  The result is named, not restated; the one
/// fact stated of it is that a successful encoding opens with the PNG
/// signature, which the `png` encoder writes before anything else.
#[verifier::external_body]
fn reencode_png(data: &[u8]) -> (r: Option<Vec<u8>>)
    ensures
        match r {
            Some(v) => png_reencoding(data@) == Some(v@) && v@.len() >= 8 && v@.subrange(0, 8)
                == png_signature(),
            None => png_reencoding(data@) is None,
        },
{
    let img = image::load_from_memory(data).ok()?;
    let mut out: Vec<u8> = Vec::new();
    img.write_to(&mut std::io::Cursor::new(&mut out), image::ImageFormat::Png).ok()?;
    Some(out)
}

/// Bytes that open like SVG or XML markup: `<svg` or `<?xm`.
pub open spec fn markup_magic(b: Seq<u8>) -> bool {
    b.len() >= 4 && b[0] == 60u8 && ((b[1] == 115u8 && b[2] == 118u8 && b[3] == 103u8) || (b[1] == 63u8
        && b[2] == 120u8 && b[3] == 109u8))
}

/// The bytes that are stored for a downloaded icon: its PNG re-encoding, or
/// nothing for short buffers, SVG/XML markup and what cannot be decoded.
pub open spec fn icon_to_store(b: Seq<u8>) -> Option<Seq<u8>> {
    if b.len() < 4 || markup_magic(b) {
        None
    } else {
        match png_reencoding(b) {
            Some(out) => if out.len() == 0 {
                None
            } else {
                Some(out)
            },
            None => None,
        }
    }
}

/// Any picture format turned into PNG bytes, or `None` (see
/// [`icon_to_store`]).
pub fn prepare_image(bytes: Vec<u8>) -> (r: Option<Vec<u8>>)
    ensures
        match r {
            Some(v) => icon_to_store(bytes@) == Some(v@),
            None => icon_to_store(bytes@) is None,
        },
        r matches Some(v) ==> png_magic(v@),
{
    if bytes.len() < 4 {
        return None;
    }
    if bytes[0] == 60u8 && ((bytes[1] == 115u8 && bytes[2] == 118u8 && bytes[3] == 103u8) || (bytes[1]
        == 63u8 && bytes[2] == 120u8 && bytes[3] == 109u8)) {
        return None;
    }
    match reencode_png(bytes.as_slice()) {
        Some(out) => if out.len() == 0 {
            None
        } else {
            assert(out@[0] == out@.subrange(0, 8)[0]);
            assert(out@[1] == out@.subrange(0, 8)[1]);
            assert(out@[2] == out@.subrange(0, 8)[2]);
            assert(out@[3] == out@.subrange(0, 8)[3]);
            Some(out)
        },
        None => None,
    }
}

/// Whether the Google favicon service answered with a real icon: its
/// placeholder for a missing icon is at most 68 bytes.
pub fn google_icon_usable(len: usize) -> (r: bool)
    ensures
        r == (len > 68),
{
    len > 68
}

/// How a link check ended: the server's status code, or the message of a
/// failure that gave none.
pub enum LinkReply {
    Status(u16),
    Failure(String),
}

pub open spec fn contains_bytes(b: Seq<u8>, p: Seq<u8>) -> bool {
    find(b, p) is Some
}

/// What a link check shows for a failure message: a short word for a time-out
/// (`timed out`, `timeout`) or a failed connection (`connect`), else the
/// message itself.
pub open spec fn failure_text(m: Seq<char>) -> Seq<char> {
    if contains_bytes(utf8(m), utf8("timed out"@)) || contains_bytes(utf8(m), utf8("timeout"@)) {
        "Таймаут"@
    } else if contains_bytes(utf8(m), utf8("connect"@)) {
        "Нет соединения"@
    } else {
        m
    }
}

/// The verdict on a link: reachable when the status is below 400, with the
/// status number or the failure text.
pub open spec fn link_verdict(reply: LinkReply) -> (bool, Seq<char>) {
    match reply {
        LinkReply::Status(code) => (code < 400, decimal(code as nat)),
        LinkReply::Failure(m) => (false, failure_text(m@)),
    }
}

/// The verdict shown for a checked link (see [`link_verdict`]).
pub fn check_outcome(reply: LinkReply) -> (r: (bool, String))
    ensures
        r.0 == link_verdict(reply).0,
        r.1@ == link_verdict(reply).1,
{
    match reply {
        LinkReply::Status(code) => (code < 400, decimal_string(code as u64)),
        LinkReply::Failure(m) => {
            let t1 = "timed out";
            let t2 = "timeout";
            let t3 = "connect";
            let timeout_word = "Таймаут";
            let no_link_word = "Нет соединения";
            if find_str(m.as_str(), t1).is_some() || find_str(m.as_str(), t2).is_some() {
                (false, timeout_word.to_owned())
            } else if find_str(m.as_str(), t3).is_some() {
                (false, no_link_word.to_owned())
            } else {
                (false, m)
            }
        },
    }
}

} // verus!
