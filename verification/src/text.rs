//! Byte-level text primitives shared by the parsers.

use vstd::prelude::*;
use vstd::string::StringSliceAdditionalSpecFns;
use vstd::utf8::*;
use vstd::string::{StrSliceExecFns, StringExecFns};

verus! {

/// `n` occurs in `h` starting at byte `i`.
pub open spec fn matches_at(h: Seq<u8>, n: Seq<u8>, i: int) -> bool {
    0 <= i && i + n.len() <= h.len() && h.subrange(i, i + n.len()) == n
}

/// First occurrence of `n` in `h` at or after `start`.
pub open spec fn find_from(h: Seq<u8>, n: Seq<u8>, start: int) -> Option<int>
    decreases h.len() + 1 - start,
{
    if start < 0 || start + n.len() > h.len() {
        None
    } else if matches_at(h, n, start) {
        Some(start)
    } else {
        find_from(h, n, start + 1)
    }
}

/// First occurrence of `n` in `h` (what `str::find` returns, as a byte index).
pub open spec fn find(h: Seq<u8>, n: Seq<u8>) -> Option<int> {
    find_from(h, n, 0)
}

pub proof fn lemma_find_from(h: Seq<u8>, n: Seq<u8>, start: int)
    requires
        0 <= start,
    ensures
        match find_from(h, n, start) {
            Some(i) => start <= i && matches_at(h, n, i) && forall|j: int|
                start <= j < i ==> !matches_at(h, n, j),
            None => forall|j: int| start <= j ==> !matches_at(h, n, j),
        },
    decreases h.len() + 1 - start,
{
    if start + n.len() > h.len() {
    } else if matches_at(h, n, start) {
    } else {
        lemma_find_from(h, n, start + 1);
    }
}

/// Byte index of the first occurrence of `needle` in `hay`.
pub fn find_bytes(hay: &[u8], needle: &[u8]) -> (r: Option<usize>)
    ensures
        r matches Some(i) ==> find(hay@, needle@) == Some(i as int),
        r is None ==> find(hay@, needle@) is None,
{
    proof {
        lemma_find_from(hay@, needle@, 0);
    }
    if needle.len() > hay.len() {
        return None;
    }
    if needle.len() == 0 {
        assert(hay@.subrange(0, 0) =~= needle@);
        proof {
            lemma_find_unique_first(hay@, needle@, 0);
        }
        return Some(0);
    }
    let last = hay.len() - needle.len();
    let mut i: usize = 0;
    while i <= last
        invariant
            needle.len() > 0,
            last == hay.len() - needle.len(),
            i <= last + 1,
            forall|j: int| 0 <= j < i ==> !matches_at(hay@, needle@, j),
        decreases last + 1 - i,
    {
        let mut k: usize = 0;
        let mut ok = true;
        while ok && k < needle.len()
            invariant
                i <= last,
                last == hay.len() - needle.len(),
                k <= needle.len(),
                ok ==> forall|t: int| 0 <= t < k ==> hay@[i + t] == needle@[t],
                !ok ==> !matches_at(hay@, needle@, i as int),
            decreases needle.len() - k, (ok as int),
        {
            if hay[i + k] != needle[k] {
                ok = false;
                assert(!matches_at(hay@, needle@, i as int)) by {
                    if matches_at(hay@, needle@, i as int) {
                        assert(hay@.subrange(i as int, i + needle.len())[k as int] == needle@[k as int]);
                    }
                }
            } else {
                k += 1;
            }
        }
        if ok {
            assert(hay@.subrange(i as int, i + needle.len()) =~= needle@);
            proof {
                lemma_find_unique_first(hay@, needle@, i as int);
            }
            return Some(i);
        }
        i += 1;
    }
    proof {
        lemma_find_none(hay@, needle@);
    }
    None
}

pub proof fn lemma_find_unique_first(h: Seq<u8>, n: Seq<u8>, i: int)
    requires
        0 <= i,
        matches_at(h, n, i),
        forall|j: int| 0 <= j < i ==> !matches_at(h, n, j),
    ensures
        find(h, n) == Some(i),
{
    lemma_find_from(h, n, 0);
}

pub proof fn lemma_find_none(h: Seq<u8>, n: Seq<u8>)
    requires
        forall|j: int| 0 <= j && j + n.len() <= h.len() ==> !matches_at(h, n, j),
    ensures
        find(h, n) is None,
{
    lemma_find_from(h, n, 0);
}

// ── UTF-8 boundaries ───────────────────────────────────────────────────────

/// The UTF-8 bytes of a character sequence.
pub open spec fn utf8(s: Seq<char>) -> Seq<u8> {
    encode_utf8(s)
}

/// Encoding distributes over concatenation.
pub proof fn lemma_utf8_concat(a: Seq<char>, b: Seq<char>)
    ensures
        encode_utf8(a + b) == encode_utf8(a) + encode_utf8(b),
    decreases a.len(),
{
    if a.len() == 0 {
        assert(a + b =~= b);
        assert(encode_utf8(a) =~= Seq::<u8>::empty());
        assert(Seq::<u8>::empty() + encode_utf8(b) =~= encode_utf8(b));
    } else {
        lemma_utf8_concat(a.drop_first(), b);
        assert((a + b).drop_first() =~= a.drop_first() + b);
        assert((a + b)[0] == a[0]);
        assert(encode_scalar(a[0] as u32) + (encode_utf8(a.drop_first()) + encode_utf8(b))
            =~= (encode_scalar(a[0] as u32) + encode_utf8(a.drop_first())) + encode_utf8(b));
    }
}

/// ASCII characters are encoded one byte each, as their code.
pub proof fn lemma_utf8_ascii(s: Seq<char>)
    requires
        forall|i: int| 0 <= i < s.len() ==> (#[trigger] s[i] as u32) < 0x80,
    ensures
        utf8(s).len() == s.len(),
        forall|i: int| 0 <= i < s.len() ==> #[trigger] utf8(s)[i] == (s[i] as u32) as u8,
    decreases s.len(),
{
    if s.len() > 0 {
        let t = s.drop_first();
        assert forall|i: int| 0 <= i < t.len() implies (#[trigger] t[i] as u32) < 0x80 by {
            assert(t[i] == s[i + 1]);
        }
        lemma_utf8_ascii(t);
        let c = s[0] as u32;
        assert((c & 0x7F) as u8 == c as u8) by (bit_vector)
            requires
                c < 0x80u32,
        ;
        assert(utf8(s) == encode_scalar(c) + utf8(t));
        assert(encode_scalar(c) == seq![(c & 0x7F) as u8]);
        assert forall|i: int| 0 <= i < s.len() implies #[trigger] utf8(s)[i] == (s[i] as u32) as u8 by {
            if i > 0 {
                assert(utf8(s)[i] == utf8(t)[i - 1]);
                assert(t[i - 1] == s[i]);
            }
        }
    }
}

/// An ASCII byte occurs in the encoding of `s` only where its character
/// occurs in `s`.
pub proof fn lemma_utf8_ascii_byte(s: Seq<char>, b: u8)
    requires
        b < 0x80,
        forall|i: int| 0 <= i < s.len() ==> (#[trigger] s[i] as u32) != b as u32,
    ensures
        forall|k: int| 0 <= k < utf8(s).len() ==> #[trigger] utf8(s)[k] != b,
    decreases s.len(),
{
    if s.len() > 0 {
        let t = s.drop_first();
        assert forall|i: int| 0 <= i < t.len() implies (#[trigger] t[i] as u32) != b as u32 by {
            assert(t[i] == s[i + 1]);
        }
        lemma_utf8_ascii_byte(t, b);
        let c = s[0] as u32;
        let e = encode_scalar(c);
        assert(c != b as u32);
        assert forall|k: int| 0 <= k < e.len() implies #[trigger] e[k] != b by {
            if has_width_1_encoding(c) {
                assert((c & 0x7F) as u8 != b) by (bit_vector)
                    requires
                        c < 0x80u32,
                        c != b as u32,
                ;
            } else {
                assert(leading_byte_width_2(c) >= 0x80) by (bit_vector);
                assert(leading_byte_width_3(c) >= 0x80) by (bit_vector);
                assert(leading_byte_width_4(c) >= 0x80) by (bit_vector);
                assert(last_continuation_byte(c) >= 0x80) by (bit_vector);
                assert(second_last_continuation_byte(c) >= 0x80) by (bit_vector);
                assert(third_last_continuation_byte(c) >= 0x80) by (bit_vector);
            }
        }
        assert(utf8(s) == e + utf8(t));
        assert forall|k: int| 0 <= k < utf8(s).len() implies #[trigger] utf8(s)[k] != b by {
            if k < e.len() {
                assert(utf8(s)[k] == e[k]);
            } else {
                assert(utf8(s)[k] == utf8(t)[k - e.len()]);
            }
        }
    }
}

/// A byte below 0x80 in valid UTF-8 starts a character, and so does the byte
/// after it.
pub proof fn lemma_ascii_boundary(b: Seq<u8>, i: int)
    requires
        valid_utf8(b),
        0 <= i < b.len(),
        b[i] < 0x80,
    ensures
        is_char_boundary(b, i),
        is_char_boundary(b, i + 1),
{
    is_char_boundary_iff_not_is_continuation_byte(b, i);
    lemma_boundary_after_ascii(b, i);
}

proof fn lemma_boundary_after_ascii(b: Seq<u8>, i: int)
    requires
        valid_utf8(b),
        0 <= i < b.len(),
        b[i] < 0x80,
        is_char_boundary(b, i),
    ensures
        is_char_boundary(b, i + 1),
    decreases b.len(),
{
    let l = length_of_first_scalar(b);
    let t = pop_first_scalar(b);
    assert(valid_utf8(t));
    if i == 0 {
        assert(l == 1);
        assert(is_char_boundary(t, 0));
    } else {
        assert(is_char_boundary(t, i - l));
        assert(i - l >= 0) by {
            if i - l < 0 {
                assert(!is_char_boundary(t, i - l));
            }
        }
        assert(l >= 1);
        assert(t[i - l] == b[i]);
        lemma_boundary_after_ascii(t, i - l);
    }
}

/// The bytes of a `str` are valid UTF-8, and both of its ends are boundaries.
pub proof fn lemma_str_bytes(s: &str)
    ensures
        valid_utf8(s.spec_bytes()),
        is_char_boundary(s.spec_bytes(), 0),
        is_char_boundary(s.spec_bytes(), s.spec_bytes().len() as int),
{
    encode_utf8_valid_utf8(s@);
    is_char_boundary_start_end_of_seq(s.spec_bytes());
}

/// The part of `s` between the byte positions `a` and `b`.
pub fn substr(s: &str, a: usize, b: usize) -> (r: &str)
    requires
        a <= b <= s.spec_bytes().len(),
        is_char_boundary(s.spec_bytes(), a as int),
        is_char_boundary(s.spec_bytes(), b as int),
    ensures
        r.spec_bytes() == s.spec_bytes().subrange(a as int, b as int),
{
    proof {
        lemma_str_bytes(s);
        lemma_boundary_in_prefix(s.spec_bytes(), a as int, b as int);
    }
    let (x, _) = s.split_at(b);
    let (_, y) = x.split_at(a);
    assert(x.spec_bytes().subrange(a as int, x.spec_bytes().len() as int) =~= s.spec_bytes().subrange(a as int, b as int));
    y
}

/// A boundary before a later boundary stays one in the prefix ending there.
proof fn lemma_boundary_in_prefix(bytes: Seq<u8>, a: int, b: int)
    requires
        valid_utf8(bytes),
        0 <= a <= b <= bytes.len(),
        is_char_boundary(bytes, a),
        is_char_boundary(bytes, b),
    ensures
        is_char_boundary(bytes.subrange(0, b), a),
    decreases bytes.len(),
{
    valid_utf8_split(bytes, b);
    let p = bytes.subrange(0, b);
    if a == 0 {
    } else {
        let l = length_of_first_scalar(bytes);
        let t = pop_first_scalar(bytes);
        assert(is_char_boundary(t, a - l));
        assert(is_char_boundary(t, b - l));
        assert(a - l >= 0) by {
            if a - l < 0 {
                assert(!is_char_boundary(t, a - l));
            }
        }
        lemma_boundary_in_prefix(t, a - l, b - l);
        assert(p.subrange(0, 1) == bytes.subrange(0, 1));
        assert(length_of_first_scalar(p) == l);
        assert(pop_first_scalar(p) =~= t.subrange(0, b - l));
        assert(valid_utf8(p));
    }
}

/// A byte range that falls outside the text or inside a character: the
/// slicing it stands for would not be possible.
#[derive(Debug, Clone, Copy, PartialEq, Eq)]
pub struct SliceFault;

/// `s[a..]`, or `None` where `a` is no character boundary of `s`.
pub fn slice_from(s: &str, a: usize) -> (r: Option<&str>)
    ensures
        is_char_boundary(s.spec_bytes(), a as int) <==> r is Some,
        r matches Some(t) ==> a <= s.spec_bytes().len() && t.spec_bytes() == s.spec_bytes().subrange(
            a as int,
            s.spec_bytes().len() as int,
        ),
{
    proof {
        lemma_str_bytes(s);
    }
    if s.is_char_boundary(a) {
        let n = s.as_bytes().len();
        Some(substr(s, a, n))
    } else {
        None
    }
}

/// Whether `a` and `b` hold the same bytes.
pub fn same_bytes(a: &[u8], b: &[u8]) -> (r: bool)
    ensures
        r == (a@ == b@),
{
    if a.len() != b.len() {
        return false;
    }
    let mut i: usize = 0;
    while i < a.len()
        invariant
            a.len() == b.len(),
            i <= a.len(),
            forall|j: int| 0 <= j < i ==> a@[j] == b@[j],
        decreases a.len() - i,
    {
        if a[i] != b[i] {
            return false;
        }
        i += 1;
    }
    assert(a@ =~= b@);
    true
}

/// Whether `a` and `b` are the same text.
pub fn str_eq(a: &str, b: &str) -> (r: bool)
    ensures
        r == (a@ == b@),
{
    proof {
        encode_utf8_decode_utf8(a@);
        encode_utf8_decode_utf8(b@);
    }
    same_bytes(a.as_bytes(), b.as_bytes())
}

/// All bytes are below 0x80.
pub open spec fn ascii_bytes(b: Seq<u8>) -> bool {
    forall|i: int| 0 <= i < b.len() ==> b[i] < 0x80
}

/// Byte index of the first occurrence of `pat` in `s` (`str::find`).
pub fn find_str(s: &str, pat: &str) -> (r: Option<usize>)
    ensures
        r matches Some(i) ==> find(s.spec_bytes(), pat.spec_bytes()) == Some(i as int),
        r is None ==> find(s.spec_bytes(), pat.spec_bytes()) is None,
{
    find_bytes(s.as_bytes(), pat.as_bytes())
}

/// A match of an ASCII pattern in valid UTF-8 starts and ends on boundaries.
pub proof fn lemma_match_boundaries(b: Seq<u8>, p: Seq<u8>, i: int)
    requires
        valid_utf8(b),
        p.len() > 0,
        ascii_bytes(p),
        matches_at(b, p, i),
    ensures
        is_char_boundary(b, i),
        is_char_boundary(b, i + p.len()),
{
    assert(b.subrange(i, i + p.len())[0] == b[i]);
    assert(b.subrange(i, i + p.len())[p.len() - 1] == b[i + p.len() - 1]);
    lemma_ascii_boundary(b, i);
    lemma_ascii_boundary(b, i + p.len() - 1);
}

/// `b` with every non-overlapping occurrence of `p`, taken from the left,
/// replaced by `r` (`str::replace`).
pub open spec fn replace_all(b: Seq<u8>, p: Seq<u8>, r: Seq<u8>) -> Seq<u8>
    decreases b.len(),
{
    if p.len() == 0 {
        b
    } else {
        match find(b, p) {
            None => b,
            Some(i) => {
                proof {
                    lemma_find_from(b, p, 0);
                }
                b.subrange(0, i) + r + replace_all(b.subrange(i + p.len(), b.len() as int), p, r)
            },
        }
    }
}

/// `s` with every occurrence of the ASCII pattern `pat` replaced by `rep`.
pub(crate) fn replace_str(s: &str, pat: &str, rep: &str) -> (r: String)
    requires
        pat.spec_bytes().len() > 0,
        ascii_bytes(pat.spec_bytes()),
    ensures
        utf8(r@) == replace_all(s.spec_bytes(), pat.spec_bytes(), rep.spec_bytes()),
{
    let ghost pb = pat.spec_bytes();
    let ghost rb = rep.spec_bytes();
    let mut out = String::new();
    let mut rest: &str = s;
    loop
        invariant
            pb == pat.spec_bytes(),
            rb == rep.spec_bytes(),
            pb.len() > 0,
            ascii_bytes(pb),
            utf8(out@) + replace_all(rest.spec_bytes(), pb, rb) == replace_all(s.spec_bytes(), pb, rb),
        decreases rest.spec_bytes().len(),
    {
        proof {
            lemma_str_bytes(rest);
            lemma_find_from(rest.spec_bytes(), pb, 0);
        }
        match find_bytes(rest.as_bytes(), pat.as_bytes()) {
            None => {
                let ghost o = out@;
                out.append(rest);
                proof {
                    lemma_utf8_concat(o, rest@);
                }
                return out;
            },
            Some(i) => {
                let rb_len = rest.as_bytes().len();
                proof {
                    assert(matches_at(rest.spec_bytes(), pb, i as int));
                    lemma_match_boundaries(rest.spec_bytes(), pb, i as int);
                }
                assert(i + pb.len() <= rb_len);
                let head = substr(rest, 0, i);
                let tail = substr(rest, i + pat.as_bytes().len(), rb_len);
                let ghost o = out@;
                out.append(head);
                let ghost o2 = out@;
                out.append(rep);
                proof {
                    lemma_utf8_concat(o, head@);
                    lemma_utf8_concat(o2, rep@);
                    let b = rest.spec_bytes();
                    assert(replace_all(b, pb, rb) == b.subrange(0, i as int) + rb + replace_all(
                        b.subrange(i + pb.len(), b.len() as int),
                        pb,
                        rb,
                    ));
                    assert(utf8(out@) + replace_all(tail.spec_bytes(), pb, rb) =~= utf8(o) + replace_all(
                        b,
                        pb,
                        rb,
                    ));
                }
                rest = tail;
            },
        }
    }
}

/// `l` without one trailing carriage return.
pub open spec fn strip_cr(l: Seq<u8>) -> Seq<u8> {
    if l.len() > 0 && l[l.len() - 1] == 13 {
        l.drop_last()
    } else {
        l
    }
}

/// The lines of `b` as `str::lines` yields them: split at `\n`, one `\r`
/// before it dropped, no empty line after a final `\n`.
pub open spec fn lines_of(b: Seq<u8>) -> Seq<Seq<u8>>
    decreases b.len(),
{
    if b.len() == 0 {
        Seq::empty()
    } else {
        match find(b, seq![10u8]) {
            None => seq![b],
            Some(i) => {
                proof {
                    lemma_find_from(b, seq![10u8], 0);
                }
                seq![strip_cr(b.subrange(0, i))] + lines_of(b.subrange(i + 1, b.len() as int))
            },
        }
    }
}

/// Lines of a text that ends a line, followed by more text.
pub proof fn lemma_lines_concat(a: Seq<u8>, b: Seq<u8>)
    requires
        a.len() == 0 || a.last() == 10u8,
    ensures
        lines_of(a + b) == lines_of(a) + lines_of(b),
    decreases a.len(),
{
    let nl = seq![10u8];
    if a.len() == 0 {
        assert(a + b =~= b);
    } else {
        let h = a + b;
        lemma_find_from(a, nl, 0);
        lemma_find_from(h, nl, 0);
        assert(a.subrange(a.len() - 1, a.len() as int) =~= nl);
        assert(matches_at(a, nl, a.len() - 1));
        assert forall|j: int| 0 <= j < a.len() implies matches_at(h, nl, j) == matches_at(a, nl, j) by {
            assert(h.subrange(j, j + 1) =~= a.subrange(j, j + 1));
        }
        let i = find(a, nl)->0;
        assert(matches_at(h, nl, i));
        lemma_find_unique_first(h, nl, i);
        let a2 = a.subrange(i + 1, a.len() as int);
        lemma_lines_concat(a2, b);
        assert(h.subrange(0, i) =~= a.subrange(0, i));
        assert(h.subrange(i + 1, h.len() as int) =~= a2 + b);
    }
}

/// Ending the last line of a text that does not end one leaves its lines
/// as they were, where that line does not end with a carriage return.
pub proof fn lemma_lines_final_break(a: Seq<u8>)
    requires
        a.len() > 0,
        a.last() != 10u8,
        a.last() != 13u8,
    ensures
        lines_of(a + seq![10u8]) == lines_of(a),
    decreases a.len(),
{
    let nl = seq![10u8];
    let h = a + nl;
    lemma_find_from(a, nl, 0);
    lemma_find_from(h, nl, 0);
    assert forall|j: int| 0 <= j < a.len() implies matches_at(h, nl, j) == matches_at(a, nl, j) by {
        assert(h.subrange(j, j + 1) =~= a.subrange(j, j + 1));
    }
    match find(a, nl) {
        Some(i) => {
            assert(matches_at(h, nl, i));
            lemma_find_unique_first(h, nl, i);
            let a2 = a.subrange(i + 1, a.len() as int);
            assert(i < a.len() - 1) by {
                if i == a.len() - 1 {
                    assert(a.subrange(i, i + 1)[0] == a[i]);
                }
            }
            assert(a2.last() == a.last());
            lemma_lines_final_break(a2);
            assert(h.subrange(0, i) =~= a.subrange(0, i));
            assert(h.subrange(i + 1, h.len() as int) =~= a2 + nl);
        },
        None => {
            assert(h.subrange(a.len() as int, a.len() as int + 1) =~= nl);
            lemma_find_unique_first(h, nl, a.len() as int);
            assert(h.subrange(0, a.len() as int) =~= a);
            assert(h.subrange(a.len() as int + 1, h.len() as int) =~= Seq::<u8>::empty());
            assert(lines_of(Seq::<u8>::empty()) == Seq::<Seq<u8>>::empty());
            assert(seq![strip_cr(a)] + Seq::<Seq<u8>>::empty() =~= seq![a]);
        },
    }
}

/// A text has no more lines than bytes.
pub proof fn lemma_lines_len(b: Seq<u8>)
    ensures
        lines_of(b).len() <= b.len(),
    decreases b.len(),
{
    if b.len() > 0 {
        lemma_find_from(b, seq![10u8], 0);
        match find(b, seq![10u8]) {
            None => {},
            Some(i) => {
                lemma_lines_len(b.subrange(i + 1, b.len() as int));
            },
        }
    }
}

pub open spec fn str_bytes_seq(v: Seq<&str>) -> Seq<Seq<u8>> {
    v.map_values(|x: &str| x.spec_bytes())
}

/// The lines of `s` (`str::lines`).
pub fn split_lines(s: &str) -> (r: Vec<&str>)
    ensures
        str_bytes_seq(r@) == lines_of(s.spec_bytes()),
{
    let mut out: Vec<&str> = Vec::new();
    let mut rest: &str = s;
    let nl = "\n";
    proof {
        reveal_strlit("\n");
        vstd::string::is_ascii_spec_bytes("\n");
    }
    assert(nl.spec_bytes() =~= seq![10u8]);
    loop
        invariant
            nl.spec_bytes() == seq![10u8],
            str_bytes_seq(out@) + lines_of(rest.spec_bytes()) == lines_of(s.spec_bytes()),
        decreases rest.spec_bytes().len(),
    {
        proof {
            lemma_str_bytes(rest);
            lemma_find_from(rest.spec_bytes(), seq![10u8], 0);
        }
        let n = rest.as_bytes().len();
        if n == 0 {
            assert(lines_of(rest.spec_bytes()) =~= Seq::<Seq<u8>>::empty());
            assert(str_bytes_seq(out@) + Seq::<Seq<u8>>::empty() =~= str_bytes_seq(out@));
            return out;
        }
        match find_bytes(rest.as_bytes(), nl.as_bytes()) {
            None => {
                let ghost before = out@;
                out.push(rest);
                assert(str_bytes_seq(out@) =~= str_bytes_seq(before) + seq![rest.spec_bytes()]);
                return out;
            },
            Some(i) => {
                let b = rest.as_bytes();
                proof {
                    lemma_match_boundaries(rest.spec_bytes(), seq![10u8], i as int);
                }
                let mut end = i;
                if i > 0 && b[i - 1] == 13 {
                    end = i - 1;
                    proof {
                        lemma_ascii_boundary(rest.spec_bytes(), i - 1);
                    }
                }
                let line = substr(rest, 0, end);
                let tail = substr(rest, i + 1, n);
                let ghost before = out@;
                out.push(line);
                proof {
                    let rb = rest.spec_bytes();
                    assert(line.spec_bytes() =~= strip_cr(rb.subrange(0, i as int)));
                    assert(str_bytes_seq(out@) =~= str_bytes_seq(before) + seq![line.spec_bytes()]);
                    assert(lines_of(rb) == seq![strip_cr(rb.subrange(0, i as int))] + lines_of(tail.spec_bytes()));
                    assert(str_bytes_seq(out@) + lines_of(tail.spec_bytes()) =~= str_bytes_seq(before) + lines_of(rb));
                }
                rest = tail;
            },
        }
    }
}

// ── White space ────────────────────────────────────────────────────────────

/// The characters with the Unicode White_Space property, which
/// `char::is_whitespace` accepts and `str::trim` removes.
pub open spec fn is_white_space(c: char) -> bool {
    let v = c as u32;
    (0x09 <= v <= 0x0D) || v == 0x20 || v == 0x85 || v == 0xA0 || v == 0x1680 || (0x2000 <= v
        <= 0x200A) || v == 0x2028 || v == 0x2029 || v == 0x202F || v == 0x205F || v == 0x3000
}

/// How many white-space characters `s` starts with.
pub open spec fn leading_ws(s: Seq<char>) -> nat
    decreases s.len(),
{
    if s.len() > 0 && is_white_space(s[0]) {
        1 + leading_ws(s.drop_first())
    } else {
        0
    }
}

/// How many white-space characters `s` ends with.
pub open spec fn trailing_ws(s: Seq<char>) -> nat
    decreases s.len(),
{
    if s.len() > 0 && is_white_space(s.last()) {
        1 + trailing_ws(s.drop_last())
    } else {
        0
    }
}

/// `s` without its leading white space (what `str::trim_start` returns).
pub open spec fn str_trim_start(s: Seq<char>) -> Seq<char> {
    s.subrange(leading_ws(s) as int, s.len() as int)
}

/// `s` without its leading and trailing white space (what `str::trim`
/// returns).
pub open spec fn str_trim(s: Seq<char>) -> Seq<char> {
    let t = str_trim_start(s);
    t.subrange(0, t.len() - trailing_ws(t))
}

pub proof fn lemma_leading_ws(s: Seq<char>, i: int)
    requires
        0 <= i <= s.len(),
        forall|j: int| 0 <= j < i ==> is_white_space(#[trigger] s[j]),
        i == s.len() || !is_white_space(s[i]),
    ensures
        leading_ws(s) == i,
    decreases i,
{
    if i > 0 {
        let t = s.drop_first();
        assert forall|j: int| 0 <= j < i - 1 implies is_white_space(#[trigger] t[j]) by {
            assert(t[j] == s[j + 1]);
        }
        if i < s.len() {
            assert(t[i - 1] == s[i]);
        }
        lemma_leading_ws(t, i - 1);
    }
}

pub proof fn lemma_leading_ws_bound(s: Seq<char>)
    ensures
        leading_ws(s) <= s.len(),
        leading_ws(s) < s.len() ==> !is_white_space(s[leading_ws(s) as int]),
        forall|j: int| 0 <= j < leading_ws(s) ==> is_white_space(#[trigger] s[j]),
    decreases s.len(),
{
    if s.len() > 0 && is_white_space(s[0]) {
        let t = s.drop_first();
        lemma_leading_ws_bound(t);
        assert forall|j: int| 0 <= j < leading_ws(s) implies is_white_space(#[trigger] s[j]) by {
            if j > 0 {
                assert(s[j] == t[j - 1]);
            }
        }
        if leading_ws(s) < s.len() {
            assert(s[leading_ws(s) as int] == t[leading_ws(t) as int]);
        }
    }
}

pub proof fn lemma_trailing_ws(s: Seq<char>, i: int)
    requires
        0 <= i <= s.len(),
        forall|j: int| s.len() - i <= j < s.len() ==> is_white_space(#[trigger] s[j]),
        i == s.len() || !is_white_space(s[s.len() - 1 - i]),
    ensures
        trailing_ws(s) == i,
    decreases i,
{
    if i > 0 {
        let t = s.drop_last();
        assert forall|j: int| t.len() - (i - 1) <= j < t.len() implies is_white_space(#[trigger] t[j]) by {
            assert(t[j] == s[j]);
        }
        if i < s.len() {
            assert(t[t.len() - 1 - (i - 1)] == s[s.len() - 1 - i]);
        }
        lemma_trailing_ws(t, i - 1);
    }
}

proof fn lemma_trailing_ws_bound(s: Seq<char>)
    ensures
        trailing_ws(s) <= s.len(),
        trailing_ws(s) < s.len() ==> !is_white_space(s[s.len() - 1 - trailing_ws(s)]),
    decreases s.len(),
{
    if s.len() > 0 && is_white_space(s.last()) {
        let t = s.drop_last();
        lemma_trailing_ws_bound(t);
        if trailing_ws(s) < s.len() {
            assert(s[s.len() - 1 - trailing_ws(s)] == t[t.len() - 1 - trailing_ws(t)]);
        }
    }
}

/// Text with no white space at either end is its own trimmed form.
pub proof fn lemma_trim_clean(s: Seq<char>)
    requires
        s.len() > 0,
        !is_white_space(s[0]),
        !is_white_space(s.last()),
    ensures
        str_trim(s) == s,
{
    lemma_leading_ws(s, 0);
    assert(str_trim_start(s) =~= s);
    lemma_trailing_ws(s, 0);
    assert(s.subrange(0, s.len() as int) =~= s);
}

/// Trimmed text has no white space at either end, so trimming it again
/// changes nothing.
pub proof fn lemma_trim_twice(s: Seq<char>)
    ensures
        str_trim(s).len() > 0 ==> !is_white_space(str_trim(s)[0]) && !is_white_space(str_trim(s).last()),
        str_trim(str_trim(s)) == str_trim(s),
{
    let ts = str_trim_start(s);
    let t = str_trim(s);
    lemma_leading_ws_bound(s);
    lemma_trailing_ws_bound(ts);
    if t.len() > 0 {
        assert(t[0] == ts[0]);
        assert(ts[0] == s[leading_ws(s) as int]);
        assert(t.last() == ts[ts.len() - 1 - trailing_ws(ts)]);
        lemma_trim_clean(t);
    } else {
        assert(leading_ws(t) == 0);
        assert(trailing_ws(t.subrange(0, 0)) == 0);
        assert(str_trim(t) =~= t);
    }
}

fn is_white_space_char(c: char) -> (r: bool)
    ensures
        r == is_white_space(c),
{
    let v = c as u32;
    (0x09 <= v && v <= 0x0D) || v == 0x20 || v == 0x85 || v == 0xA0 || v == 0x1680 || (0x2000 <= v && v
        <= 0x200A) || v == 0x2028 || v == 0x2029 || v == 0x202F || v == 0x205F || v == 0x3000
}

/// `str::trim_start`: `s` without its leading white space.
pub(crate) fn trim_start(s: &str) -> (r: &str)
    ensures
        r@ == str_trim_start(s@),
{
    let n = s.unicode_len();
    let mut i: usize = 0;
    while i < n && is_white_space_char(s.get_char(i))
        invariant
            n == s@.len(),
            i <= n,
            forall|j: int| 0 <= j < i ==> is_white_space(#[trigger] s@[j]),
        decreases n - i,
    {
        i += 1;
    }
    proof {
        lemma_leading_ws(s@, i as int);
    }
    s.substring_char(i, n)
}

/// `str::trim`: `s` without its leading and trailing white space.
pub(crate) fn trim(s: &str) -> (r: &str)
    ensures
        r@ == str_trim(s@),
{
    let t = trim_start(s);
    let n = t.unicode_len();
    let mut k: usize = 0;
    while k < n && is_white_space_char(t.get_char(n - 1 - k))
        invariant
            n == t@.len(),
            k <= n,
            forall|j: int| n - k <= j < n ==> is_white_space(#[trigger] t@[j]),
        decreases n - k,
    {
        k += 1;
    }
    proof {
        lemma_trailing_ws(t@, k as int);
    }
    t.substring_char(0, n - k)
}

// ── ASCII case folding ─────────────────────────────────────────────────────

/// `b` with each ASCII capital made small and every other byte kept; the
/// length and every position stay as they are.
pub open spec fn ascii_fold(b: Seq<u8>) -> Seq<u8> {
    Seq::new(b.len(), |i: int| if 65 <= b[i] && b[i] <= 90 { (b[i] + 32) as u8 } else { b[i] })
}

/// Folds the bytes of `b` as [`ascii_fold`] says.
pub fn ascii_fold_bytes(b: &[u8]) -> (r: Vec<u8>)
    ensures
        r@ == ascii_fold(b@),
{
    let mut r: Vec<u8> = Vec::new();
    let mut i: usize = 0;
    while i < b.len()
        invariant
            i <= b@.len(),
            r@ == ascii_fold(b@).subrange(0, i as int),
        decreases b@.len() - i,
    {
        let c = b[i];
        let f: u8 = if 65 <= c && c <= 90 {
            c + 32
        } else {
            c
        };
        r.push(f);
        i += 1;
        assert(r@ =~= ascii_fold(b@).subrange(0, i as int));
    }
    assert(r@ =~= ascii_fold(b@));
    r
}

/// A folded byte below `A` is the byte itself.
pub proof fn lemma_fold_keeps(b: Seq<u8>, i: int, c: u8)
    requires
        0 <= i < b.len(),
        ascii_fold(b)[i] == c,
        c < 65,
    ensures
        b[i] == c,
{
}

/// Where a pattern that ends with a byte below `A` matches the folded
/// bytes of valid UTF-8, the end of the match is a boundary of the bytes.
pub proof fn lemma_fold_match_end(b: Seq<u8>, p: Seq<u8>, i: int)
    requires
        valid_utf8(b),
        p.len() > 0,
        p[p.len() - 1] < 65,
        matches_at(ascii_fold(b), p, i),
    ensures
        is_char_boundary(b, i + p.len()),
        b[i + p.len() - 1] == p[p.len() - 1],
{
    assert(ascii_fold(b).subrange(i, i + p.len())[p.len() - 1] == ascii_fold(b)[i + p.len() - 1]);
    lemma_fold_keeps(b, i + p.len() - 1, p[p.len() - 1]);
    lemma_ascii_boundary(b, i + p.len() - 1);
}

/// Where a pattern that starts with a byte below `A` matches the folded
/// bytes of valid UTF-8, the start of the match is a boundary of the bytes.
pub proof fn lemma_fold_match_start(b: Seq<u8>, p: Seq<u8>, i: int)
    requires
        valid_utf8(b),
        p.len() > 0,
        p[0] < 65,
        matches_at(ascii_fold(b), p, i),
    ensures
        is_char_boundary(b, i),
        b[i] == p[0],
{
    assert(ascii_fold(b).subrange(i, i + p.len())[0] == ascii_fold(b)[i]);
    lemma_fold_keeps(b, i, p[0]);
    lemma_ascii_boundary(b, i);
}

// ── std string functions whose results are named, not restated ─────────────

/// What `str::to_lowercase` returns for a character sequence.
pub uninterp spec fn str_lowercase(s: Seq<char>) -> Seq<char>;


/// `str::to_lowercase`: the Unicode lower-case form of `s`; its result is
/// named, since lower-casing may change the byte length.
#[verifier::external_body]
pub(crate) fn to_lowercase(s: &str) -> (r: String)
    ensures
        r@ == str_lowercase(s@),
{
    s.to_lowercase()
}


/// `char::to_string`: the one-character string of `c`.
#[verifier::external_body]
pub(crate) fn char_string(c: char) -> (r: String)
    ensures
        r@ == seq![c],
{
    c.to_string()
}

// ── Numbers as text ────────────────────────────────────────────────────────

/// The character of the decimal digit `d`.
pub open spec fn digit_char(d: int) -> char {
    (48 + d) as char
}

/// The decimal digits of `n`, most significant first, without leading zeros.
pub open spec fn decimal(n: nat) -> Seq<char>
    decreases n,
{
    if n < 10 {
        seq![digit_char(n as int)]
    } else {
        decimal(n / 10).push(digit_char((n % 10) as int))
    }
}

/// `n.to_string()` for an unsigned number.
pub fn decimal_string(n: u64) -> (r: String)
    ensures
        r@ == decimal(n as nat),
    decreases n,
{
    let d: u8 = (n % 10) as u8;
    let c: char = (48u8 + d) as char;
    assert(c == digit_char((n % 10) as int));
    if n < 10 {
        char_string(c)
    } else {
        let mut s = decimal_string(n / 10);
        let t = char_string(c);
        s.append(t.as_str());
        assert(s@ =~= decimal(n as nat));
        s
    }
}

/// `n.to_string()` for a signed number: a `-` before the digits of its
/// magnitude.
pub open spec fn signed_decimal(n: int) -> Seq<char> {
    if n < 0 {
        seq!['-'] + decimal((-n) as nat)
    } else {
        decimal(n as nat)
    }
}

pub fn signed_decimal_string(n: i64) -> (r: String)
    ensures
        r@ == signed_decimal(n as int),
{
    if n < 0 {
        let m: u64 = if n == i64::MIN {
            9223372036854775808u64
        } else {
            (-n) as u64
        };
        let mut s = char_string('-');
        let t = decimal_string(m);
        s.append(t.as_str());
        s
    } else {
        decimal_string(n as u64)
    }
}

// ── Bytes as text ──────────────────────────────────────────────────────────

/// `std::str::from_utf8`: the bytes as text where they are valid UTF-8.
#[verifier::external_body]
fn utf8_text(b: &[u8]) -> (r: Option<String>)
    ensures
        r is Some <==> valid_utf8(b@),
        r matches Some(s) ==> utf8(s@) == b@,
{
    match std::str::from_utf8(b) {
        Ok(s) => Some(s.to_owned()),
        Err(_) => None,
    }
}

/// The bytes as text for a message: themselves where they are valid UTF-8,
/// else `<non-UTF8>`.
pub fn printable(b: &[u8]) -> (r: String)
    ensures
        valid_utf8(b@) ==> utf8(r@) == b@,
        !valid_utf8(b@) ==> r@ == "<non-UTF8>"@,
{
    match utf8_text(b) {
        Some(s) => s,
        None => String::from_str("<non-UTF8>"),
    }
}

} // verus!
