//! The bookmark store's records and the import rules of its file formats.
//!
//! An import does not write to the store itself: it yields a plan, the
//! folders and bookmarks to create in order, each under the store's root,
//! an existing folder, or a folder created earlier in the same plan.

use vstd::prelude::*;
use vstd::string::StringSliceAdditionalSpecFns;
use vstd::utf8::*;
use vstd::string::StrSliceExecFns;
use std::collections::HashMap;
use crate::json::{
    array_field, get_field, get_text, json_parse, lemma_field_smaller, object_values, parse_json, text_field, JsonValue,
};
use crate::markup::{attr_lookup, attr_value, element_text, element_text_in, lower_bytes, unesc, unescaped};
use crate::text::{
    same_bytes, str_eq, to_lowercase, str_lowercase, find_str, ascii_fold_bytes,
    find, find_bytes, lemma_ascii_boundary, lemma_find_from, lemma_str_bytes, lines_of, split_lines,
    str_bytes_seq, str_trim, substr, trim, utf8, lemma_lines_len,
};

verus! {

/// A folder row of the store.
#[derive(Clone, Debug)]
pub struct DbFolder {
    pub id: i64,
    pub parent_id: Option<i64>,
    pub title: String,
}

/// A bookmark row of the store.
#[derive(Clone, Debug)]
pub struct DbBookmark {
    pub id: i64,
    pub title: String,
    pub url: Option<String>,
    pub note: Option<String>,
    pub created: Option<String>,
    pub thumb: Option<String>,
}

/// The mathematical form of a [`DbBookmark`].
pub struct BookmarkView {
    pub id: i64,
    pub title: Seq<char>,
    pub url: Option<Seq<char>>,
    pub note: Option<Seq<char>>,
    pub created: Option<Seq<char>>,
    pub thumb: Option<Seq<char>>,
}

impl View for DbBookmark {
    type V = BookmarkView;

    open spec fn view(&self) -> BookmarkView {
        BookmarkView {
            id: self.id,
            title: self.title@,
            url: opt_chars(self.url),
            note: opt_chars(self.note),
            created: opt_chars(self.created),
            thumb: opt_chars(self.thumb),
        }
    }
}

fn copy_opt(o: &Option<String>) -> (r: Option<String>)
    ensures
        opt_chars(r) == opt_chars(*o),
{
    match o {
        Some(s) => Some(s.as_str().to_owned()),
        None => None,
    }
}

impl DbBookmark {
    /// A copy of the row.
    pub fn duplicate(&self) -> (r: DbBookmark)
        ensures
            r@ == self@,
    {
        DbBookmark {
            id: self.id,
            title: self.title.as_str().to_owned(),
            url: copy_opt(&self.url),
            note: copy_opt(&self.note),
            created: copy_opt(&self.created),
            thumb: copy_opt(&self.thumb),
        }
    }
}

/// Where a planned node goes: the root, a folder created by an earlier step
/// of the plan (its index), or a folder already in the store.
#[derive(Clone, Copy, Debug, PartialEq, Eq, Structural)]
pub enum Parent {
    Root,
    Planned(usize),
    Existing(i64),
}

/// One step of an import plan. A folder step with a `fallback` uses that
/// folder id when the store refuses to create it; without one the import
/// fails there.
#[derive(Clone, Debug)]
pub enum ImportOp {
    Folder { parent: Parent, title: String, fallback: Option<i64> },
    Bookmark { parent: Parent, title: String, url: String, note: Option<String> },
}

/// The mathematical form of an [`ImportOp`].
pub enum OpSpec {
    Folder { parent: Parent, title: Seq<char>, fallback: Option<i64> },
    Bookmark { parent: Parent, title: Seq<char>, url: Seq<char>, note: Option<Seq<char>> },
}

pub open spec fn opt_chars(o: Option<String>) -> Option<Seq<char>> {
    match o {
        Some(s) => Some(s@),
        None => None,
    }
}

impl View for ImportOp {
    type V = OpSpec;

    open spec fn view(&self) -> OpSpec {
        match self {
            ImportOp::Folder { parent, title, fallback } => OpSpec::Folder {
                parent: *parent,
                title: title@,
                fallback: *fallback,
            },
            ImportOp::Bookmark { parent, title, url, note } => OpSpec::Bookmark {
                parent: *parent,
                title: title@,
                url: url@,
                note: opt_chars(*note),
            },
        }
    }
}

/// The steps of an import, and whether it stops short after them (where the
/// file gives a text position that is no character boundary).
pub struct ImportPlan {
    pub ops: Vec<ImportOp>,
    pub stopped: bool,
}

pub open spec fn ops_view(ops: Seq<ImportOp>) -> Seq<OpSpec> {
    ops.map_values(|o: ImportOp| o@)
}

pub open spec fn op_parent(o: OpSpec) -> Parent {
    match o {
        OpSpec::Folder { parent, .. } => parent,
        OpSpec::Bookmark { parent, .. } => parent,
    }
}

/// Every step placed in a planned folder names a folder step before it.
pub open spec fn plan_well_formed(ops: Seq<OpSpec>) -> bool {
    forall|j: int|
        0 <= j < ops.len() ==> match #[trigger] op_parent(ops[j]) {
            Parent::Planned(i) => i < j && ops[i as int] is Folder,
            _ => true,
        }
}

/// The number of bookmark steps among the first `n` steps.
pub open spec fn bookmarks_in(ops: Seq<OpSpec>) -> nat
    decreases ops.len(),
{
    if ops.len() == 0 {
        0
    } else {
        bookmarks_in(ops.drop_last()) + if ops.last() is Bookmark {
            1nat
        } else {
            0nat
        }
    }
}

/// The title a bookmark is stored under: its URL where the title is empty.
pub open spec fn stored_title(title: Seq<char>, url: Seq<char>) -> Seq<char> {
    if title.len() == 0 {
        url
    } else {
        title
    }
}

pub fn bookmark_title(title: &str, url: &str) -> (r: String)
    ensures
        r@ == stored_title(title@, url@),
{
    if title.unicode_len() == 0 {
        url.to_owned()
    } else {
        title.to_owned()
    }
}

// ── ua.dat ─────────────────────────────────────────────────────────────────

/// The number of tab bytes `b` starts with.
pub open spec fn leading_tabs(b: Seq<u8>) -> nat
    decreases b.len(),
{
    if b.len() > 0 && b[0] == 9u8 {
        1 + leading_tabs(b.drop_first())
    } else {
        0
    }
}

/// Field `k` of the tab-separated `b` (fields after the sixth tab are not
/// split apart, which the fields read here never reach).
pub open spec fn field(b: Seq<u8>, k: nat) -> Option<Seq<u8>>
    decreases k,
{
    match find(b, seq![9u8]) {
        None => if k == 0 {
            Some(b)
        } else {
            None
        },
        Some(i) => if k == 0 {
            Some(b.subrange(0, i))
        } else {
            field(b.subrange(i + 1, b.len() as int), (k - 1) as nat)
        },
    }
}

/// The characters of `b` without surrounding white space.
pub open spec fn trimmed(b: Seq<u8>) -> Seq<char> {
    str_trim(decode_utf8(b))
}

pub open spec fn trimmed_field(b: Seq<u8>, k: nat) -> Seq<char> {
    match field(b, k) {
        Some(f) => trimmed(f),
        None => Seq::empty(),
    }
}

pub open spec fn parent_of(p: Option<nat>) -> Parent {
    match p {
        Some(k) => Parent::Planned(k as usize),
        None => Parent::Root,
    }
}

/// The reader's state between lines: the folder step open at each depth,
/// and the steps so far.
pub struct UaState {
    pub stack: Seq<Option<nat>>,
    pub ops: Seq<OpSpec>,
}

/// One line of a ua.dat file. Leading tabs give its depth; its fields are
/// title, URL, image, note, ...; the URL `#` makes a folder, under the folder
/// open one level up (the root at depth 0 or where none is open). A bookmark
/// needs an open folder one level up, else the line is skipped; so are blank
/// lines and lines with an empty title.
pub open spec fn ua_line(st: UaState, line: Seq<u8>) -> UaState {
    let depth = leading_tabs(line);
    let content = line.subrange(depth as int, line.len() as int);
    let title = trimmed_field(content, 0);
    let url = trimmed_field(content, 1);
    let note = trimmed_field(content, 3);
    if trimmed(line).len() == 0 || title.len() == 0 {
        st
    } else {
        let stack = if st.stack.len() <= depth {
            st.stack + Seq::new((depth + 1 - st.stack.len()) as nat, |i: int| None::<nat>)
        } else {
            st.stack
        };
        let parent = if depth == 0 {
            None
        } else {
            stack[depth - 1]
        };
        if url == seq!['#'] {
            let k = st.ops.len();
            UaState {
                stack: Seq::new(
                    stack.len(),
                    |i: int|
                        if i < depth {
                            stack[i]
                        } else if i == depth {
                            Some(k)
                        } else {
                            None
                        },
                ),
                ops: st.ops.push(OpSpec::Folder { parent: parent_of(parent), title, fallback: None }),
            }
        } else if url.len() > 0 && parent is Some {
            UaState {
                stack,
                ops: st.ops.push(
                    OpSpec::Bookmark {
                        parent: parent_of(parent),
                        title,
                        url,
                        note: if note.len() == 0 {
                            None
                        } else {
                            Some(note)
                        },
                    },
                ),
            }
        } else {
            UaState { stack, ops: st.ops }
        }
    }
}

pub open spec fn ua_lines(lines: Seq<Seq<u8>>) -> UaState
    decreases lines.len(),
{
    if lines.len() == 0 {
        UaState { stack: seq![None], ops: Seq::empty() }
    } else {
        ua_line(ua_lines(lines.drop_last()), lines.last())
    }
}

proof fn lemma_leading_tabs(b: Seq<u8>, i: int)
    requires
        0 <= i <= b.len(),
        forall|j: int| 0 <= j < i ==> b[j] == 9u8,
    ensures
        leading_tabs(b) == i + leading_tabs(b.subrange(i, b.len() as int)),
    decreases i,
{
    if i == 0 {
        assert(b.subrange(0, b.len() as int) =~= b);
    } else {
        let t = b.drop_first();
        lemma_leading_tabs(t, i - 1);
        assert(t.subrange(i - 1, t.len() as int) =~= b.subrange(i, b.len() as int));
    }
}

fn count_tabs(b: &[u8]) -> (r: usize)
    ensures
        r == leading_tabs(b@),
        r <= b@.len(),
        forall|j: int| 0 <= j < r ==> b@[j] == 9u8,
{
    let mut i: usize = 0;
    while i < b.len() && b[i] == 9u8
        invariant
            i <= b.len(),
            forall|j: int| 0 <= j < i ==> b@[j] == 9u8,
        decreases b.len() - i,
    {
        i += 1;
    }
    proof {
        lemma_leading_tabs(b@, i as int);
        let rest = b@.subrange(i as int, b@.len() as int);
        if i < b.len() {
            assert(rest[0] == b@[i as int]);
        }
    }
    i
}

fn field_str(s: &str, k: usize) -> (r: Option<&str>)
    ensures
        match field(s.spec_bytes(), k as nat) {
            None => r is None,
            Some(f) => r matches Some(t) && t.spec_bytes() == f,
        },
    decreases k,
{
    let tab: Vec<u8> = vec![9u8];
    assert(tab@ =~= seq![9u8]);
    proof {
        lemma_str_bytes(s);
        lemma_find_from(s.spec_bytes(), seq![9u8], 0);
    }
    let n = s.as_bytes().len();
    match find_bytes(s.as_bytes(), tab.as_slice()) {
        None => if k == 0 {
            Some(s)
        } else {
            None
        },
        Some(i) => {
            proof {
                assert(s.spec_bytes().subrange(i as int, i + 1)[0] == 9u8);
                lemma_ascii_boundary(s.spec_bytes(), i as int);
            }
            if k == 0 {
                Some(substr(s, 0, i))
            } else {
                let rest = substr(s, i + 1, n);
                field_str(rest, k - 1)
            }
        },
    }
}

fn trimmed_field_str(s: &str, k: usize) -> (r: String)
    ensures
        r@ == trimmed_field(s.spec_bytes(), k as nat),
{
    match field_str(s, k) {
        Some(f) => {
            proof {
                encode_utf8_decode_utf8(f@);
            }
            trim(f).to_owned()
        },
        None => String::new(),
    }
}

pub open spec fn stack_view(v: Seq<Option<usize>>) -> Seq<Option<nat>> {
    v.map_values(
        |o: Option<usize>|
            match o {
                Some(k) => Some(k as nat),
                None => None::<nat>,
            },
    )
}

pub open spec fn is_hash(s: Seq<char>) -> bool {
    s == seq!['#']
}

fn plan_ua_line(line: &str, stack: &mut Vec<Option<usize>>, ops: &mut Vec<ImportOp>)
    requires
        old(ops)@.len() < usize::MAX,
    ensures
        final(ops)@.len() <= old(ops)@.len() + 1,
        ({
            let st = ua_line(UaState { stack: stack_view(old(stack)@), ops: ops_view(old(ops)@) }, line.spec_bytes());
            &&& stack_view(final(stack)@) == st.stack
            &&& ops_view(final(ops)@) == st.ops
        }),
{
    let ghost st0 = UaState { stack: stack_view(stack@), ops: ops_view(ops@) };
    let ghost lb = line.spec_bytes();
    proof {
        lemma_str_bytes(line);
        encode_utf8_decode_utf8(line@);
    }
    let tl = trim(line);
    if tl.unicode_len() == 0 {
        return;
    }
    let bytes = line.as_bytes();
    let n = bytes.len();
    let depth = count_tabs(bytes);
    proof {
        if depth > 0 {
            lemma_ascii_boundary(lb, depth - 1);
        }
    }
    let content = substr(line, depth, n);
    let title = trimmed_field_str(content, 0);
    if title.unicode_len() == 0 {
        return;
    }
    let url = trimmed_field_str(content, 1);
    let note = trimmed_field_str(content, 3);
    let ghost grown = if st0.stack.len() <= depth {
        st0.stack + Seq::new((depth + 1 - st0.stack.len()) as nat, |i: int| None::<nat>)
    } else {
        st0.stack
    };
    let ghost len0 = stack@.len();
    while stack.len() <= depth
        invariant
            len0 == old(stack)@.len(),
            len0 <= stack@.len(),
            stack@.len() <= depth + 1 || stack@.len() == len0,
            forall|j: int| 0 <= j < len0 ==> stack@[j] == old(stack)@[j],
            forall|j: int| len0 <= j < stack@.len() ==> stack@[j] is None,
        decreases depth + 1 - stack@.len(),
    {
        stack.push(None);
    }
    assert(stack_view(stack@) =~= grown);
    let parent: Option<usize> = if depth == 0 {
        None
    } else {
        stack[depth - 1]
    };
    let ghost gparent = if depth == 0 {
        None
    } else {
        grown[depth - 1]
    };
    assert(match parent {
        Some(p) => gparent == Some(p as nat),
        None => gparent is None,
    });
    let is_folder_mark = url.unicode_len() == 1 && url.as_str().get_char(0) == '#';
    assert(is_folder_mark == (url@ == seq!['#'])) by {
        if url@.len() == 1 && url@[0] == '#' {
            assert(url@ =~= seq!['#']);
        }
    }
    let pp = match parent {
        Some(p) => Parent::Planned(p),
        None => Parent::Root,
    };
    assert(pp == parent_of(gparent));
    if is_folder_mark {
        let k = ops.len();
        ops.push(ImportOp::Folder { parent: pp, title, fallback: None });
        stack.set(depth, Some(k));
        let mut j = depth + 1;
        while j < stack.len()
            invariant
                depth < stack@.len(),
                depth + 1 <= j <= stack@.len(),
                stack@.len() == grown.len(),
                forall|i: int| 0 <= i < depth ==> stack_view(stack@)[i] == grown[i],
                stack@[depth as int] == Some(k),
                forall|i: int| depth < i < j ==> stack@[i] is None,
            decreases stack@.len() - j,
        {
            stack.set(j, None);
            j += 1;
        }
        assert(ops_view(ops@) =~= st0.ops.push(OpSpec::Folder { parent: pp, title: title@, fallback: None }));
    } else if url.unicode_len() > 0 && parent.is_some() {
        let nt = if note.unicode_len() == 0 {
            None
        } else {
            Some(note)
        };
        let ghost nv = opt_chars(nt);
        ops.push(ImportOp::Bookmark { parent: pp, title, url, note: nt });
        assert(ops_view(ops@) =~= st0.ops.push(
            OpSpec::Bookmark { parent: pp, title: title@, url: url@, note: nv },
        ));
    }
}

/// The text that `encoding_rs` decodes from `bytes` as windows-1251 (a
/// leading UTF-8 or UTF-16 byte-order mark selects that encoding instead;
/// malformed input becomes U+FFFD).
pub uninterp spec fn windows_1251_text(bytes: Seq<u8>) -> Seq<char>;

/// `encoding_rs::WINDOWS_1251.decode`: the decoded text, named rather than
/// restated.
#[verifier::external_body]
fn decode_windows_1251(bytes: &[u8]) -> (r: String)
    ensures
        r@ == windows_1251_text(bytes@),
{
    let (text, _, _) = encoding_rs::WINDOWS_1251.decode(bytes);
    text.into_owned()
}

/// The plan for the bytes of a ua.dat file: decoded as windows-1251, then
/// read line by line (see [`ua_line`]).
pub fn import_uadat_plan(bytes: &[u8]) -> (r: ImportPlan)
    ensures
        !r.stopped,
        ops_view(r.ops@) == ua_lines(lines_of(utf8(windows_1251_text(bytes@)))).ops,
{
    let text = decode_windows_1251(bytes);
    plan_uadat(text.as_str())
}

/// The plan for a ua.dat file already decoded to text (see [`ua_line`]).
pub fn plan_uadat(text: &str) -> (r: ImportPlan)
    ensures
        !r.stopped,
        ops_view(r.ops@) == ua_lines(lines_of(text.spec_bytes())).ops,
{
    let lines = split_lines(text);
    let ghost ls = lines_of(text.spec_bytes());
    let mut stack: Vec<Option<usize>> = vec![None];
    let mut ops: Vec<ImportOp> = Vec::new();
    assert(stack_view(stack@) =~= seq![None::<nat>]);
    assert(ops_view(ops@) =~= Seq::<OpSpec>::empty());
    assert(ls.take(0) =~= Seq::<Seq<u8>>::empty());
    let mut i: usize = 0;
    while i < lines.len()
        invariant
            str_bytes_seq(lines@) == ls,
            i <= lines@.len(),
            ops@.len() <= i,
            stack_view(stack@) == ua_lines(ls.take(i as int)).stack,
            ops_view(ops@) == ua_lines(ls.take(i as int)).ops,
        decreases lines@.len() - i,
    {
        let ghost pre = ls.take(i as int);
        plan_ua_line(lines[i], &mut stack, &mut ops);
        i += 1;
        assert(ls.take(i as int).drop_last() =~= pre);
        assert(ls[i - 1] == lines@[i - 1].spec_bytes());
    }
    assert(ls.take(i as int) =~= ls);
    ImportPlan { ops, stopped: false }
}

/// The open folders of a reader's state name folder steps, and its plan is
/// well formed.
pub open spec fn ua_state_ok(st: UaState) -> bool {
    &&& plan_well_formed(st.ops)
    &&& forall|i: int|
        0 <= i < st.stack.len() ==> match #[trigger] st.stack[i] {
            Some(k) => k < st.ops.len() && st.ops[k as int] is Folder,
            None => true,
        }
}

proof fn lemma_ua_line_ok(st: UaState, line: Seq<u8>)
    requires
        ua_state_ok(st),
        st.ops.len() < usize::MAX,
    ensures
        ua_state_ok(ua_line(st, line)),
        ua_line(st, line).ops.len() <= st.ops.len() + 1,
        forall|j: int| 0 <= j < st.ops.len() ==> #[trigger] ua_line(st, line).ops[j] == st.ops[j],
{
    let r = ua_line(st, line);
    let depth = leading_tabs(line);
    let stack = if st.stack.len() <= depth {
        st.stack + Seq::new((depth + 1 - st.stack.len()) as nat, |i: int| None::<nat>)
    } else {
        st.stack
    };
    assert forall|i: int| 0 <= i < stack.len() implies match #[trigger] stack[i] {
        Some(k) => k < st.ops.len() && st.ops[k as int] is Folder,
        None => true,
    } by {
        if i < st.stack.len() {
            assert(stack[i] == st.stack[i]);
        }
    }
    assert forall|j: int| 0 <= j < r.ops.len() implies match #[trigger] op_parent(r.ops[j]) {
        Parent::Planned(i) => i < j && r.ops[i as int] is Folder,
        _ => true,
    } by {
        if j < st.ops.len() {
            assert(r.ops[j] == st.ops[j]);
            assert(op_parent(st.ops[j]) == op_parent(r.ops[j]));
        } else if depth > 0 {
            let p = stack[depth - 1];
            match p {
                Some(k) => {
                    assert(k < st.ops.len() && st.ops[k as int] is Folder);
                    assert(r.ops[k as int] == st.ops[k as int]);
                },
                None => {},
            }
        }
    }
}

proof fn lemma_ua_lines_ok(lines: Seq<Seq<u8>>)
    requires
        lines.len() <= usize::MAX,
    ensures
        ua_state_ok(ua_lines(lines)),
        ua_lines(lines).ops.len() <= lines.len(),
    decreases lines.len(),
{
    if lines.len() == 0 {
        let st = ua_lines(lines);
        assert(st.stack =~= seq![None::<nat>]);
    } else {
        lemma_ua_lines_ok(lines.drop_last());
        lemma_ua_line_ok(ua_lines(lines.drop_last()), lines.last());
    }
}

/// A ua.dat plan places each folder and bookmark in the root or in a folder
/// created before it.
pub proof fn law_uadat_plan_well_formed(text: Seq<u8>)
    requires
        lines_of(text).len() <= usize::MAX,
    ensures
        plan_well_formed(ua_lines(lines_of(text)).ops),
{
    lemma_ua_lines_ok(lines_of(text));
}

// ── Netscape bookmark HTML ─────────────────────────────────────────────────

pub open spec fn contains(b: Seq<u8>, p: Seq<u8>) -> bool {
    find(b, p) is Some
}

/// The reader's state between lines: the folder steps opened and not yet
/// closed, the folder new entries go into, the steps so far, and whether it
/// has stopped.
pub struct HtmlState {
    pub stack: Seq<nat>,
    pub current: Option<nat>,
    pub ops: Seq<OpSpec>,
    pub stopped: bool,
}

pub open spec fn html_start() -> HtmlState {
    HtmlState { stack: Seq::empty(), current: None, ops: Seq::empty(), stopped: false }
}

/// One line of a bookmark HTML file, matched without regard to case: a line
/// with `<h3` opens a folder named by the (unescaped) text of its `h3`
/// element, inside the current folder; a line with `<a ` and `href=` adds a
/// bookmark with its `href` and the (unescaped) text of its `a` element to
/// the current folder, or, where no folder is open, to a new root folder
/// `Импорт` made for it; a line that trims to `</dl>` or `</dl><p>` closes
/// the innermost folder. Tags and attribute names are matched without
/// regard to ASCII case, at the line's own byte positions. The reader would
/// stop where a text cut fell inside a character, which that matching never
/// gives.
pub open spec fn html_line(st: HtmlState, line: Seq<u8>) -> HtmlState {
    let lo = lower_bytes(decode_utf8(line));
    if st.stopped {
        st
    } else if contains(lo, seq![60u8, 104u8, 51u8]) {
        match element_text(line, lo, seq![104u8, 51u8]) {
            None => HtmlState { stopped: true, ..st },
            Some(t) => if t.len() == 0 {
                st
            } else {
                let k = st.ops.len();
                HtmlState {
                    stack: st.stack.push(k),
                    current: Some(k),
                    ops: st.ops.push(
                        OpSpec::Folder {
                            parent: parent_of(st.current),
                            title: decode_utf8(unescaped(t)),
                            fallback: None,
                        },
                    ),
                    stopped: false,
                }
            },
        }
    } else if contains(lo, seq![60u8, 97u8, 32u8]) && contains(lo, seq![104u8, 114u8, 101u8, 102u8, 61u8]) {
        match (attr_value(line, lo, seq![104u8, 114u8, 101u8, 102u8]), element_text(line, lo, seq![97u8])) {
            (Some(u), Some(t)) => {
                let url = match u {
                    Some(v) => v,
                    None => Seq::empty(),
                };
                if url.len() == 0 {
                    st
                } else {
                    let title = stored_title(decode_utf8(unescaped(t)), decode_utf8(url));
                    match st.current {
                        Some(c) => HtmlState {
                            ops: st.ops.push(
                                OpSpec::Bookmark {
                                    parent: Parent::Planned(c as usize),
                                    title,
                                    url: decode_utf8(url),
                                    note: None,
                                },
                            ),
                            ..st
                        },
                        None => {
                            let k = st.ops.len();
                            HtmlState {
                                ops: st.ops.push(
                                    OpSpec::Folder { parent: Parent::Root, title: "Импорт"@, fallback: Some(1) },
                                ).push(
                                    OpSpec::Bookmark {
                                        parent: Parent::Planned(k as usize),
                                        title,
                                        url: decode_utf8(url),
                                        note: None,
                                    },
                                ),
                                ..st
                            }
                        },
                    }
                }
            },
            _ => HtmlState { stopped: true, ..st },
        }
    } else if utf8(str_trim(str_lowercase(decode_utf8(line)))) == seq![60u8, 47u8, 100u8, 108u8, 62u8]
        || utf8(str_trim(str_lowercase(decode_utf8(line)))) == seq![
        60u8,
        47u8,
        100u8,
        108u8,
        62u8,
        60u8,
        112u8,
        62u8,
    ] {
        let stack = if st.stack.len() > 0 {
            st.stack.drop_last()
        } else {
            st.stack
        };
        HtmlState {
            stack,
            current: if stack.len() > 0 {
                Some(stack.last())
            } else {
                None
            },
            ..st
        }
    } else {
        st
    }
}

pub open spec fn html_lines(lines: Seq<Seq<u8>>) -> HtmlState
    decreases lines.len(),
{
    if lines.len() == 0 {
        html_start()
    } else {
        html_line(html_lines(lines.drop_last()), lines.last())
    }
}

pub open spec fn nat_stack(v: Seq<usize>) -> Seq<nat> {
    v.map_values(|k: usize| k as nat)
}

pub open spec fn opt_nat(o: Option<usize>) -> Option<nat> {
    match o {
        Some(k) => Some(k as nat),
        None => None,
    }
}

fn plan_html_line(line: &str, stack: &mut Vec<usize>, current: &mut Option<usize>, ops: &mut Vec<ImportOp>) -> (stopped: bool)
    requires
        old(ops)@.len() + 2 < usize::MAX,
    ensures
        final(ops)@.len() <= old(ops)@.len() + 2,
        ({
            let st = html_line(
                HtmlState {
                    stack: nat_stack(old(stack)@),
                    current: opt_nat(*old(current)),
                    ops: ops_view(old(ops)@),
                    stopped: false,
                },
                line.spec_bytes(),
            );
            &&& st.stopped == stopped
            &&& nat_stack(final(stack)@) == st.stack
            &&& opt_nat(*final(current)) == st.current
            &&& ops_view(final(ops)@) == st.ops
        }),
{
    let ghost st0 = HtmlState {
        stack: nat_stack(stack@),
        current: opt_nat(*current),
        ops: ops_view(ops@),
        stopped: false,
    };
    proof {
        lemma_str_bytes(line);
        encode_utf8_decode_utf8(line@);
    }
    let lo = ascii_fold_bytes(line.as_bytes());
    let los = lo.as_slice();
    let p_h3: Vec<u8> = vec![60u8, 104u8, 51u8];
    let p_a: Vec<u8> = vec![60u8, 97u8, 32u8];
    let p_href: Vec<u8> = vec![104u8, 114u8, 101u8, 102u8, 61u8];
    let dl: Vec<u8> = vec![60u8, 47u8, 100u8, 108u8, 62u8];
    let dlp: Vec<u8> = vec![60u8, 47u8, 100u8, 108u8, 62u8, 60u8, 112u8, 62u8];
    assert(p_h3@ =~= seq![60u8, 104u8, 51u8]);
    assert(p_a@ =~= seq![60u8, 97u8, 32u8]);
    assert(p_href@ =~= seq![104u8, 114u8, 101u8, 102u8, 61u8]);
    assert(dl@ =~= seq![60u8, 47u8, 100u8, 108u8, 62u8]);
    assert(dlp@ =~= seq![60u8, 47u8, 100u8, 108u8, 62u8, 60u8, 112u8, 62u8]);
    let t_h3 = "h3";
    let t_a = "a";
    let t_href = "href";
    proof {
        reveal_strlit("h3");
        reveal_strlit("a");
        reveal_strlit("href");
        vstd::string::is_ascii_spec_bytes(t_h3);
        vstd::string::is_ascii_spec_bytes(t_a);
        vstd::string::is_ascii_spec_bytes(t_href);
    }
    assert(t_h3.spec_bytes() =~= seq![104u8, 51u8]);
    assert(t_a.spec_bytes() =~= seq![97u8]);
    assert(t_href.spec_bytes() =~= seq![104u8, 114u8, 101u8, 102u8]);
    let pp = match *current {
        Some(c) => Parent::Planned(c),
        None => Parent::Root,
    };
    assert(pp == parent_of(st0.current));
    if find_bytes(los, p_h3.as_slice()).is_some() {
        match element_text_in(line, los, t_h3) {
            None => true,
            Some(t) => {
                if t.as_bytes().len() == 0 {
                    return false;
                }
                let title = unesc(t);
                proof {
                    encode_utf8_decode_utf8(title@);
                }
                let k = ops.len();
                ops.push(ImportOp::Folder { parent: pp, title, fallback: None });
                stack.push(k);
                *current = Some(k);
                assert(nat_stack(stack@) =~= st0.stack.push(k as nat));
                assert(ops_view(ops@) =~= st0.ops.push(
                    OpSpec::Folder { parent: pp, title: title@, fallback: None },
                ));
                false
            },
        }
    } else if find_bytes(los, p_a.as_slice()).is_some() && find_bytes(
        los,
        p_href.as_slice(),
    ).is_some() {
        let u = attr_lookup(line, los, t_href);
        let t = element_text_in(line, los, t_a);
        match (u, t) {
            (Some(uo), Some(t)) => {
                let url: &str = match uo {
                    Some(v) => v,
                    None => "",
                };
                proof {
                    if uo is None {
                        reveal_strlit("");
                        assert(url@.len() == 0);
                    }
                    encode_utf8_decode_utf8(url@);
                }
                if url.as_bytes().len() == 0 {
                    return false;
                }
                let ut = unesc(t);
                proof {
                    encode_utf8_decode_utf8(ut@);
                }
                let title = bookmark_title(ut.as_str(), url);
                match *current {
                    Some(c) => {
                        let ghost tv = title@;
                        ops.push(
                            ImportOp::Bookmark {
                                parent: Parent::Planned(c),
                                title,
                                url: url.to_owned(),
                                note: None,
                            },
                        );
                        assert(ops_view(ops@) =~= st0.ops.push(
                            OpSpec::Bookmark {
                                parent: Parent::Planned(c),
                                title: tv,
                                url: url@,
                                note: None,
                            },
                        ));
                    },
                    None => {
                        let k = ops.len();
                        let ghost tv = title@;
                        ops.push(
                            ImportOp::Folder {
                                parent: Parent::Root,
                                title: "Импорт".to_owned(),
                                fallback: Some(1),
                            },
                        );
                        ops.push(
                            ImportOp::Bookmark {
                                parent: Parent::Planned(k),
                                title,
                                url: url.to_owned(),
                                note: None,
                            },
                        );
                        assert(ops_view(ops@) =~= st0.ops.push(
                            OpSpec::Folder { parent: Parent::Root, title: "Импорт"@, fallback: Some(1) },
                        ).push(
                            OpSpec::Bookmark {
                                parent: Parent::Planned(k),
                                title: tv,
                                url: url@,
                                note: None,
                            },
                        ));
                    },
                }
                false
            },
            _ => true,
        }
    } else {
        let lu = to_lowercase(line);
        let tl = trim(lu.as_str());
        if same_bytes(tl.as_bytes(), dl.as_slice()) || same_bytes(tl.as_bytes(), dlp.as_slice()) {
            let _ = stack.pop();
            proof {
                if st0.stack.len() > 0 {
                    assert(nat_stack(stack@) =~= st0.stack.drop_last());
                } else {
                    assert(nat_stack(stack@) =~= st0.stack);
                }
            }
            *current = if stack.len() > 0 {
                Some(stack[stack.len() - 1])
            } else {
                None
            };
        }
        false
    }
}

/// The plan for the text of a bookmark HTML file (see [`html_line`]).
pub fn plan_html(text: &str) -> (r: ImportPlan)
    requires
        text.spec_bytes().len() < usize::MAX / 2,
    ensures
        r.stopped == html_lines(lines_of(text.spec_bytes())).stopped,
        ops_view(r.ops@) == html_lines(lines_of(text.spec_bytes())).ops,
{
    let lines = split_lines(text);
    let ghost ls = lines_of(text.spec_bytes());
    proof {
        lemma_lines_len(text.spec_bytes());
    }
    let mut stack: Vec<usize> = Vec::new();
    let mut current: Option<usize> = None;
    let mut ops: Vec<ImportOp> = Vec::new();
    let mut stopped = false;
    assert(nat_stack(stack@) =~= Seq::<nat>::empty());
    assert(ops_view(ops@) =~= Seq::<OpSpec>::empty());
    assert(ls.take(0) =~= Seq::<Seq<u8>>::empty());
    let mut i: usize = 0;
    while i < lines.len()
        invariant
            str_bytes_seq(lines@) == ls,
            ls.len() < usize::MAX / 2,
            i <= lines@.len(),
            ops@.len() <= 2 * i,
            ({
                let st = html_lines(ls.take(i as int));
                &&& nat_stack(stack@) == st.stack
                &&& opt_nat(current) == st.current
                &&& ops_view(ops@) == st.ops
                &&& stopped == st.stopped
            }),
        decreases lines@.len() - i,
    {
        let ghost pre = ls.take(i as int);
        if !stopped {
            stopped = plan_html_line(lines[i], &mut stack, &mut current, &mut ops);
        }
        i += 1;
        assert(ls.take(i as int).drop_last() =~= pre);
        assert(ls[i - 1] == lines@[i - 1].spec_bytes());
    }
    assert(ls.take(i as int) =~= ls);
    ImportPlan { ops, stopped }
}

pub open spec fn names_folder(ops: Seq<OpSpec>, k: nat) -> bool {
    k < ops.len() && ops[k as int] is Folder
}

pub open spec fn html_state_ok(st: HtmlState) -> bool {
    &&& plan_well_formed(st.ops)
    &&& forall|i: int| 0 <= i < st.stack.len() ==> names_folder(st.ops, #[trigger] st.stack[i])
    &&& (st.current matches Some(c) ==> names_folder(st.ops, c))
}

proof fn lemma_html_line_ok(st: HtmlState, line: Seq<u8>)
    requires
        html_state_ok(st),
        st.ops.len() + 2 < usize::MAX,
    ensures
        html_state_ok(html_line(st, line)),
        html_line(st, line).ops.len() <= st.ops.len() + 2,
{
    let r = html_line(st, line);
    assert forall|j: int| 0 <= j < st.ops.len() implies #[trigger] r.ops[j] == st.ops[j] by {
        if r.ops.len() == st.ops.len() + 2 {
            assert(r.ops[j] == st.ops.push(r.ops[st.ops.len() as int])[j]);
        }
    }
    assert forall|j: int| 0 <= j < r.ops.len() implies match #[trigger] op_parent(r.ops[j]) {
        Parent::Planned(i) => i < j && r.ops[i as int] is Folder,
        _ => true,
    } by {
        if j < st.ops.len() {
            assert(op_parent(st.ops[j]) == op_parent(r.ops[j]));
        } else {
            match st.current {
                Some(c) => {
                    assert(r.ops[c as int] == st.ops[c as int]);
                },
                None => {},
            }
        }
    }
    assert forall|i: int| 0 <= i < r.stack.len() implies names_folder(r.ops, #[trigger] r.stack[i]) by {
        if i < st.stack.len() {
            assert(r.stack[i] == st.stack[i]);
            assert(r.ops[st.stack[i] as int] == st.ops[st.stack[i] as int]);
        }
    }
    match r.current {
        Some(c) => {
            if c < st.ops.len() {
                assert(r.ops[c as int] == st.ops[c as int]);
            }
            if r.stack.len() > 0 && r.current == Some(r.stack.last()) {
                assert(names_folder(r.ops, r.stack[r.stack.len() - 1]));
            }
        },
        None => {},
    }
}

proof fn lemma_html_lines_ok(lines: Seq<Seq<u8>>)
    requires
        2 * lines.len() + 2 < usize::MAX,
    ensures
        html_state_ok(html_lines(lines)),
        html_lines(lines).ops.len() <= 2 * lines.len(),
    decreases lines.len(),
{
    if lines.len() > 0 {
        lemma_html_lines_ok(lines.drop_last());
        lemma_html_line_ok(html_lines(lines.drop_last()), lines.last());
    }
}

/// A bookmark-HTML plan places each folder and bookmark in the root or in a
/// folder created before it.
pub proof fn law_html_plan_well_formed(text: Seq<u8>)
    requires
        text.len() < usize::MAX / 2,
    ensures
        plan_well_formed(html_lines(lines_of(text)).ops),
{
    lemma_lines_len(text);
    lemma_html_lines_ok(lines_of(text));
}

// ── Chromium bookmark JSON ─────────────────────────────────────────────────

/// A node of a Chromium `Bookmarks` file, as far as the import reads it: its
/// `type` (empty where missing or not text), `name` and `url` where they are
/// text, and `children` where it is an array.
pub struct ChromeNode {
    pub kind: String,
    pub name: Option<String>,
    pub url: Option<String>,
    pub children: Option<Vec<ChromeNode>>,
}

pub open spec fn children_of(node: ChromeNode) -> Seq<ChromeNode> {
    match node.children {
        Some(v) => v@,
        None => Seq::empty(),
    }
}

/// The steps for one node placed under `parent`, its own folder step (if
/// any) at index `base`: a `folder` becomes a folder named by `name` (or
/// `Папка`) holding its children; a `url` with a non-empty address becomes a
/// bookmark named by `name` (or the address); other nodes are skipped.
pub open spec fn chrome_ops(node: ChromeNode, parent: Parent, base: nat) -> Seq<OpSpec>
    decreases node,
{
    if node.kind@ == "folder"@ {
        let title = match node.name {
            Some(n) => n@,
            None => "Папка"@,
        };
        seq![OpSpec::Folder { parent, title, fallback: None }] + match node.children {
            Some(v) => chrome_list_ops(v@, Parent::Planned(base as usize), base + 1),
            None => Seq::empty(),
        }
    } else if node.kind@ == "url"@ {
        match node.url {
            Some(u) => if u@.len() > 0 {
                let name = match node.name {
                    Some(n) => n@,
                    None => u@,
                };
                seq![OpSpec::Bookmark { parent, title: stored_title(name, u@), url: u@, note: None }]
            } else {
                Seq::empty()
            },
            None => Seq::empty(),
        }
    } else {
        Seq::empty()
    }
}

/// The steps for `nodes` in order, all under `parent`, starting at index
/// `base`.
pub open spec fn chrome_list_ops(nodes: Seq<ChromeNode>, parent: Parent, base: nat) -> Seq<OpSpec>
    decreases nodes,
{
    if nodes.len() == 0 {
        Seq::empty()
    } else {
        let first = chrome_ops(nodes[0], parent, base);
        first + chrome_list_ops(nodes.subrange(1, nodes.len() as int), parent, base + first.len())
    }
}

fn chrome_walk(node: &ChromeNode, parent: Parent, ops: &mut Vec<ImportOp>)
    requires
        old(ops)@.len() + chrome_ops(*node, parent, old(ops)@.len() as nat).len() < usize::MAX,
    ensures
        ops_view(final(ops)@) == ops_view(old(ops)@) + chrome_ops(*node, parent, old(ops)@.len() as nat),
    decreases node,
{
    let ghost base = ops@.len() as nat;
    let ghost before = ops_view(ops@);
    if str_eq(node.kind.as_str(), "folder") {
        let title = match &node.name {
            Some(n) => n.clone(),
            None => "Папка".to_owned(),
        };
        let k = ops.len();
        ops.push(ImportOp::Folder { parent, title, fallback: None });
        assert(ops_view(ops@) =~= before + seq![OpSpec::Folder { parent, title: title@, fallback: None }]);
        match &node.children {
            Some(v) => {
                let ghost kids = v@;
                assert(kids.subrange(0, kids.len() as int) =~= kids);
                assert(chrome_ops(*node, parent, base) =~= seq![OpSpec::Folder { parent, title: title@, fallback: None }]
                    + chrome_list_ops(kids, Parent::Planned(k), base + 1));
                let mut i: usize = 0;
                while i < v.len()
                    invariant
                        kids == v@,
                        node.children == Some(*v),
                        k == base,
                        i <= v@.len(),
                        ops@.len() + chrome_list_ops(kids.subrange(i as int, kids.len() as int), Parent::Planned(k), ops@.len() as nat).len() < usize::MAX,
                        ops_view(ops@) + chrome_list_ops(kids.subrange(i as int, kids.len() as int), Parent::Planned(k), ops@.len() as nat)
                            == before + chrome_ops(*node, parent, base),
                    decreases v@.len() - i,
                {
                    let ghost rest = kids.subrange(i as int, kids.len() as int);
                    let ghost at = ops@.len() as nat;
                    assert(rest[0] == kids[i as int]);
                    assert(rest.subrange(1, rest.len() as int) =~= kids.subrange(i + 1, kids.len() as int));
                    proof {
                        let ch = node.children;
                        assert(ch == Some(*v));
                        let vv: Vec<ChromeNode> = *v;
                        assert(decreases_to!(*node => ch));
                        assert(decreases_to!(ch => ch->0));
                        assert(ch->0 == vv);
                        assert(decreases_to!(vv => vv@));
                        assert(decreases_to!(vv@ => vv@[i as int]));
                        assert(decreases_to!(*node => v@[i as int]));
                    }
                    chrome_walk(&v[i], Parent::Planned(k), ops);
                    i += 1;
                    assert(ops_view(ops@) + chrome_list_ops(kids.subrange(i as int, kids.len() as int), Parent::Planned(k), ops@.len() as nat)
                        =~= before + chrome_ops(*node, parent, base));
                }
                assert(kids.subrange(i as int, kids.len() as int) =~= Seq::<ChromeNode>::empty());
                assert(ops_view(ops@) =~= before + chrome_ops(*node, parent, base));
            },
            None => {
                assert(ops_view(ops@) =~= before + chrome_ops(*node, parent, base));
            },
        }
    } else if str_eq(node.kind.as_str(), "url") {
        match &node.url {
            Some(u) => {
                if u.as_str().unicode_len() > 0 {
                    let name: &str = match &node.name {
                        Some(n) => n.as_str(),
                        None => u.as_str(),
                    };
                    let title = bookmark_title(name, u.as_str());
                    let ghost tv = title@;
                    ops.push(ImportOp::Bookmark { parent, title, url: u.clone(), note: None });
                    assert(ops_view(ops@) =~= before + chrome_ops(*node, parent, base));
                } else {
                    assert(ops_view(ops@) =~= before + chrome_ops(*node, parent, base));
                }
            },
            None => {
                assert(ops_view(ops@) =~= before + chrome_ops(*node, parent, base));
            },
        }
    } else {
        assert(ops_view(ops@) =~= before + chrome_ops(*node, parent, base));
    }
}

/// The plan for a Chromium bookmark file: a root folder named after the
/// browser, holding the top-level nodes in the order given.
pub fn plan_chrome(roots: &Vec<ChromeNode>, browser_name: &str) -> (r: ImportPlan)
    requires
        chrome_list_ops(roots@, Parent::Planned(0), 1).len() + 2 < usize::MAX,
    ensures
        !r.stopped,
        ops_view(r.ops@) == seq![OpSpec::Folder { parent: Parent::Root, title: browser_name@, fallback: None }]
            + chrome_list_ops(roots@, Parent::Planned(0), 1),
{
    let mut ops: Vec<ImportOp> = Vec::new();
    ops.push(ImportOp::Folder { parent: Parent::Root, title: browser_name.to_owned(), fallback: None });
    let ghost head = seq![OpSpec::Folder { parent: Parent::Root, title: browser_name@, fallback: None }];
    assert(ops_view(ops@) =~= head);
    let ghost all = roots@;
    assert(all.subrange(0, all.len() as int) =~= all);
    let mut i: usize = 0;
    while i < roots.len()
        invariant
            all == roots@,
            i <= all.len(),
            ops@.len() + chrome_list_ops(all.subrange(i as int, all.len() as int), Parent::Planned(0), ops@.len() as nat).len() < usize::MAX,
            ops_view(ops@) + chrome_list_ops(all.subrange(i as int, all.len() as int), Parent::Planned(0), ops@.len() as nat)
                == head + chrome_list_ops(all, Parent::Planned(0), 1),
        decreases all.len() - i,
    {
        let ghost rest = all.subrange(i as int, all.len() as int);
        assert(rest[0] == all[i as int]);
        assert(rest.subrange(1, rest.len() as int) =~= all.subrange(i + 1, all.len() as int));
        chrome_walk(&roots[i], Parent::Planned(0), &mut ops);
        i += 1;
        assert(ops_view(ops@) + chrome_list_ops(all.subrange(i as int, all.len() as int), Parent::Planned(0), ops@.len() as nat)
            =~= head + chrome_list_ops(all, Parent::Planned(0), 1));
    }
    assert(all.subrange(i as int, all.len() as int) =~= Seq::<ChromeNode>::empty());
    assert(ops_view(ops@) =~= head + chrome_list_ops(all, Parent::Planned(0), 1));
    ImportPlan { ops, stopped: false }
}

/// Steps made at index `base` onwards under `parent`: each goes under
/// `parent` or under a folder step among them before it.
pub open spec fn placed_within(ops: Seq<OpSpec>, parent: Parent, base: nat) -> bool {
    forall|j: int|
        0 <= j < ops.len() ==> {
            let p = #[trigger] op_parent(ops[j]);
            p == parent || match p {
                Parent::Planned(i) => base <= i < base + j && ops[i - base] is Folder,
                _ => false,
            }
        }
}

proof fn lemma_chrome_placed(node: ChromeNode, parent: Parent, base: nat)
    requires
        base + chrome_ops(node, parent, base).len() < usize::MAX,
    ensures
        placed_within(chrome_ops(node, parent, base), parent, base),
    decreases node,
{
    let ops = chrome_ops(node, parent, base);
    if node.kind@ == "folder"@ {
        match node.children {
            Some(v) => {
                let kids = chrome_list_ops(v@, Parent::Planned(base as usize), base + 1);
                lemma_chrome_list_placed(v@, Parent::Planned(base as usize), base + 1);
                assert forall|j: int| 0 <= j < ops.len() implies {
                    let p = #[trigger] op_parent(ops[j]);
                    p == parent || match p {
                        Parent::Planned(i) => base <= i < base + j && ops[i - base] is Folder,
                        _ => false,
                    }
                } by {
                    if j > 0 {
                        assert(ops[j] == kids[j - 1]);
                        let p = op_parent(kids[j - 1]);
                        match p {
                            Parent::Planned(i) => {
                                if i != base as usize {
                                    assert(ops[i - base] == kids[i - base - 1]);
                                }
                            },
                            _ => {},
                        }
                    }
                }
            },
            None => {},
        }
    }
}

proof fn lemma_chrome_list_placed(nodes: Seq<ChromeNode>, parent: Parent, base: nat)
    requires
        base + chrome_list_ops(nodes, parent, base).len() < usize::MAX,
    ensures
        placed_within(chrome_list_ops(nodes, parent, base), parent, base),
    decreases nodes,
{
    if nodes.len() > 0 {
        let first = chrome_ops(nodes[0], parent, base);
        let rest_nodes = nodes.subrange(1, nodes.len() as int);
        let rest = chrome_list_ops(rest_nodes, parent, base + first.len());
        let ops = chrome_list_ops(nodes, parent, base);
        assert(ops == first + rest);
        lemma_chrome_placed(nodes[0], parent, base);
        lemma_chrome_list_placed(rest_nodes, parent, base + first.len());
        assert forall|j: int| 0 <= j < ops.len() implies {
            let p = #[trigger] op_parent(ops[j]);
            p == parent || match p {
                Parent::Planned(i) => base <= i < base + j && ops[i - base] is Folder,
                _ => false,
            }
        } by {
            if j < first.len() {
                assert(ops[j] == first[j]);
                match op_parent(first[j]) {
                    Parent::Planned(i) => {
                        if op_parent(first[j]) != parent {
                            assert(ops[i - base] == first[i - base]);
                        }
                    },
                    _ => {},
                }
            } else {
                assert(ops[j] == rest[j - first.len()]);
                match op_parent(rest[j - first.len()]) {
                    Parent::Planned(i) => {
                        if op_parent(rest[j - first.len()]) != parent {
                            assert(ops[i - base] == rest[i - base - first.len()]);
                        }
                    },
                    _ => {},
                }
            }
        }
    }
}

/// A Chromium plan places each folder and bookmark in the root or in a
/// folder created before it.
pub proof fn law_chrome_plan_well_formed(roots: Seq<ChromeNode>, browser_name: Seq<char>)
    requires
        chrome_list_ops(roots, Parent::Planned(0), 1).len() + 2 < usize::MAX,
    ensures
        plan_well_formed(
            seq![OpSpec::Folder { parent: Parent::Root, title: browser_name, fallback: None }]
                + chrome_list_ops(roots, Parent::Planned(0), 1),
        ),
{
    let kids = chrome_list_ops(roots, Parent::Planned(0), 1);
    let ops = seq![OpSpec::Folder { parent: Parent::Root, title: browser_name, fallback: None }] + kids;
    lemma_chrome_list_placed(roots, Parent::Planned(0), 1);
    assert forall|j: int| 0 <= j < ops.len() implies match #[trigger] op_parent(ops[j]) {
        Parent::Planned(i) => i < j && ops[i as int] is Folder,
        _ => true,
    } by {
        if j > 0 {
            assert(ops[j] == kids[j - 1]);
            match op_parent(kids[j - 1]) {
                Parent::Planned(i) => {
                    if i != 0 {
                        assert(ops[i as int] == kids[i - 1]);
                    }
                },
                _ => {},
            }
        }
    }
}

// ── Chromium bookmark files as text ────────────────────────────────────────

/// `n` is what the import reads from the JSON node `j`: its `type` text
/// (empty where missing or not text), its `name` and `url` where they are
/// text, and, where `children` is an array, one node read from each entry.
pub open spec fn node_reads(n: ChromeNode, j: JsonValue) -> bool
    decreases j,
{
    proof {
        lemma_field_smaller(j, "children"@);
    }
    &&& n.kind@ == match text_field(j, "type"@) {
        Some(s) => s,
        None => Seq::empty(),
    }
    &&& opt_chars(n.name) == text_field(j, "name"@)
    &&& opt_chars(n.url) == text_field(j, "url"@)
    &&& match array_field(j, "children"@) {
        Some(a) => match n.children {
            Some(v) => v@.len() == a.len() && forall|i: int| 0 <= i < a.len() ==> node_reads(#[trigger] v@[i], a[i]),
            None => false,
        },
        None => n.children is None,
    }
}

/// Each of `ns` is read from the JSON value at its position in `js`.
pub open spec fn list_reads(ns: Seq<ChromeNode>, js: Seq<JsonValue>) -> bool {
    ns.len() == js.len() && forall|i: int| 0 <= i < js.len() ==> node_reads(#[trigger] ns[i], js[i])
}

/// The nodes a Chromium file's document gives: one for each value of its
/// `roots` object, in order (none where `roots` is no object).
pub open spec fn chrome_roots(j: JsonValue) -> Seq<ChromeNode> {
    choose|ns: Seq<ChromeNode>| list_reads(ns, object_values(j, "roots"@))
}

/// How many nodes a tree holds.
pub open spec fn chrome_size(node: ChromeNode) -> nat
    decreases node,
{
    1 + match node.children {
        Some(v) => chrome_list_size(v@),
        None => 0,
    }
}

pub open spec fn chrome_list_size(nodes: Seq<ChromeNode>) -> nat
    decreases nodes,
{
    if nodes.len() == 0 {
        0
    } else {
        chrome_size(nodes[0]) + chrome_list_size(nodes.subrange(1, nodes.len() as int))
    }
}

proof fn lemma_lists_same(a: Seq<ChromeNode>, b: Seq<ChromeNode>)
    requires
        a.len() == b.len(),
        forall|i: int| 0 <= i < a.len() ==> chrome_size(#[trigger] a[i]) == chrome_size(b[i]),
        forall|i: int, p: Parent, k: nat| 0 <= i < a.len() ==> #[trigger] chrome_ops(a[i], p, k) == chrome_ops(b[i], p, k),
    ensures
        chrome_list_size(a) == chrome_list_size(b),
        forall|p: Parent, k: nat| #[trigger] chrome_list_ops(a, p, k) == chrome_list_ops(b, p, k),
    decreases a.len(),
{
    if a.len() > 0 {
        let a1 = a.subrange(1, a.len() as int);
        let b1 = b.subrange(1, b.len() as int);
        assert forall|i: int| 0 <= i < a1.len() implies chrome_size(#[trigger] a1[i]) == chrome_size(b1[i]) by {
            assert(a1[i] == a[i + 1] && b1[i] == b[i + 1]);
        }
        assert forall|i: int, p: Parent, k: nat| 0 <= i < a1.len() implies #[trigger] chrome_ops(a1[i], p, k)
            == chrome_ops(b1[i], p, k) by {
            assert(a1[i] == a[i + 1] && b1[i] == b[i + 1]);
        }
        lemma_lists_same(a1, b1);
        assert(chrome_size(a[0]) == chrome_size(b[0]));
        assert forall|p: Parent, k: nat| #[trigger] chrome_list_ops(a, p, k) == chrome_list_ops(b, p, k) by {
            assert(chrome_ops(a[0], p, k) == chrome_ops(b[0], p, k));
            let l = chrome_ops(a[0], p, k).len();
            assert(chrome_list_ops(a1, p, k + l) == chrome_list_ops(b1, p, k + l));
        }
    }
}

/// Two nodes read from one JSON value give the same steps and size.
proof fn lemma_reads_same(n1: ChromeNode, n2: ChromeNode, j: JsonValue)
    requires
        node_reads(n1, j),
        node_reads(n2, j),
    ensures
        chrome_size(n1) == chrome_size(n2),
        forall|p: Parent, k: nat| #[trigger] chrome_ops(n1, p, k) == chrome_ops(n2, p, k),
    decreases j,
{
    lemma_field_smaller(j, "children"@);
    match array_field(j, "children"@) {
        Some(a) => {
            let v1 = n1.children->0;
            let v2 = n2.children->0;
            assert forall|i: int| 0 <= i < a.len() implies chrome_size(#[trigger] v1@[i]) == chrome_size(v2@[i])
                && forall|p: Parent, k: nat| #[trigger] chrome_ops(v1@[i], p, k) == chrome_ops(v2@[i], p, k) by {
                lemma_reads_same(v1@[i], v2@[i], a[i]);
            }
            lemma_lists_same(v1@, v2@);
        },
        None => {},
    }
    assert(n1.kind@ == n2.kind@);
    assert forall|p: Parent, k: nat| #[trigger] chrome_ops(n1, p, k) == chrome_ops(n2, p, k) by {
        if n1.name is Some {
            assert(n1.name->0@ == n2.name->0@);
        }
        if n1.url is Some {
            assert(n1.url->0@ == n2.url->0@);
        }
        if array_field(j, "children"@) is Some {
            assert(chrome_list_ops(n1.children->0@, Parent::Planned(k as usize), k + 1) == chrome_list_ops(
                n2.children->0@,
                Parent::Planned(k as usize),
                k + 1,
            ));
        }
    }
}

/// Two node lists read from the same JSON values give the same steps and
/// size: what [`chrome_roots`] picks is fixed as far as the import goes.
pub proof fn law_chrome_reading_fixed(a: Seq<ChromeNode>, b: Seq<ChromeNode>, js: Seq<JsonValue>)
    requires
        list_reads(a, js),
        list_reads(b, js),
    ensures
        chrome_list_size(a) == chrome_list_size(b),
        forall|p: Parent, k: nat| #[trigger] chrome_list_ops(a, p, k) == chrome_list_ops(b, p, k),
{
    assert forall|i: int| 0 <= i < a.len() implies chrome_size(#[trigger] a[i]) == chrome_size(b[i])
        && forall|p: Parent, k: nat| #[trigger] chrome_ops(a[i], p, k) == chrome_ops(b[i], p, k) by {
        lemma_reads_same(a[i], b[i], js[i]);
    }
    lemma_lists_same(a, b);
}

/// The node that `j` gives (see [`node_reads`]).
pub fn chrome_node(j: &JsonValue) -> (r: ChromeNode)
    ensures
        node_reads(r, *j),
    decreases j,
{
    proof {
        lemma_field_smaller(*j, "children"@);
    }
    let kind = match get_text(j, "type") {
        Some(t) => t.to_owned(),
        None => String::new(),
    };
    let name = match get_text(j, "name") {
        Some(t) => Some(t.to_owned()),
        None => None,
    };
    let url = match get_text(j, "url") {
        Some(t) => Some(t.to_owned()),
        None => None,
    };
    let children = match get_field(j, "children") {
        Some(JsonValue::Array(a)) => {
            let mut v: Vec<ChromeNode> = Vec::new();
            let mut i: usize = 0;
            while i < a.len()
                invariant
                    array_field(*j, "children"@) == Some(a@),
                    forall|m: int| 0 <= m < a@.len() ==> decreases_to!(*j => #[trigger] a@[m]),
                    i <= a@.len(),
                    v@.len() == i,
                    forall|m: int| 0 <= m < i ==> node_reads(#[trigger] v@[m], a@[m]),
                decreases a@.len() - i,
            {
                proof {
                    assert(decreases_to!(*j => a@[i as int]));
                }
                let c = chrome_node(&a[i]);
                v.push(c);
                i += 1;
            }
            Some(v)
        },
        _ => None,
    };
    let r = ChromeNode { kind, name, url, children };
    proof {
        reveal_strlit("");
    }
    r
}

/// The nodes of a Chromium file's document: one for each value of its
/// `roots` object, in order.
pub fn chrome_nodes(j: &JsonValue) -> (r: Vec<ChromeNode>)
    ensures
        list_reads(r@, object_values(*j, "roots"@)),
{
    let mut v: Vec<ChromeNode> = Vec::new();
    match get_field(j, "roots") {
        Some(JsonValue::Object(es)) => {
            let ghost vals = es@.map_values(|e: (String, JsonValue)| e.1);
            let mut i: usize = 0;
            while i < es.len()
                invariant
                    object_values(*j, "roots"@) == vals,
                    vals == es@.map_values(|e: (String, JsonValue)| e.1),
                    i <= es@.len(),
                    v@.len() == i,
                    forall|m: int| 0 <= m < i ==> node_reads(#[trigger] v@[m], vals[m]),
                decreases es@.len() - i,
            {
                let c = chrome_node(&es[i].1);
                v.push(c);
                i += 1;
            }
        },
        _ => {},
    }
    v
}

/// `x`, or the largest `usize` where it is larger.
pub open spec fn capped(x: nat) -> nat {
    if x > usize::MAX {
        usize::MAX as nat
    } else {
        x
    }
}

fn add_capped(a: usize, b: usize) -> (r: usize)
    ensures
        r == capped((a + b) as nat),
{
    if a > usize::MAX - b {
        usize::MAX
    } else {
        a + b
    }
}

proof fn lemma_list_size_prefix(s: Seq<ChromeNode>, i: int)
    requires
        0 <= i < s.len(),
    ensures
        chrome_list_size(s.subrange(0, i + 1)) == chrome_list_size(s.subrange(0, i)) + chrome_size(s[i]),
    decreases i,
{
    let t = s.subrange(0, i + 1);
    assert(t[0] == s[0]);
    if i == 0 {
        assert(t.subrange(1, t.len() as int) =~= Seq::<ChromeNode>::empty());
        assert(s.subrange(0, 0) =~= Seq::<ChromeNode>::empty());
        assert(chrome_list_size(Seq::<ChromeNode>::empty()) == 0);
    } else {
        assert(s.subrange(0, i)[0] == s[0]);
        let s1 = s.subrange(1, s.len() as int);
        lemma_list_size_prefix(s1, i - 1);
        assert(t.subrange(1, t.len() as int) =~= s1.subrange(0, i));
        assert(s.subrange(0, i).subrange(1, i) =~= s1.subrange(0, i - 1));
        assert(s1[i - 1] == s[i]);
    }
}

/// How many nodes the tree under `n` holds, stopping at the largest `usize`.
fn chrome_count(n: &ChromeNode) -> (r: usize)
    ensures
        r == capped(chrome_size(*n)),
    decreases n,
{
    match &n.children {
        Some(v) => {
            let ghost kids = v@;
            let mut total: usize = 0;
            let mut i: usize = 0;
            assert(kids.subrange(0, 0) =~= Seq::<ChromeNode>::empty());
            while i < v.len()
                invariant
                    kids == v@,
                    n.children == Some(*v),
                    i <= kids.len(),
                    total == capped(chrome_list_size(kids.subrange(0, i as int))),
                decreases kids.len() - i,
            {
                proof {
                    let ch = n.children;
                    let vv: Vec<ChromeNode> = *v;
                    assert(decreases_to!(*n => ch));
                    assert(decreases_to!(ch => ch->0));
                    assert(ch->0 == vv);
                    assert(decreases_to!(vv => vv@));
                    assert(decreases_to!(vv@ => vv@[i as int]));
                    lemma_list_size_prefix(kids, i as int);
                }
                let c = chrome_count(&v[i]);
                total = add_capped(total, c);
                i += 1;
            }
            assert(kids.subrange(0, kids.len() as int) =~= kids);
            add_capped(total, 1)
        },
        None => 1,
    }
}

proof fn lemma_ops_within(node: ChromeNode, parent: Parent, base: nat)
    ensures
        chrome_ops(node, parent, base).len() <= chrome_size(node),
    decreases node,
{
    if node.kind@ == "folder"@ {
        match node.children {
            Some(v) => lemma_list_ops_within(v@, Parent::Planned(base as usize), base + 1),
            None => {},
        }
    }
}

proof fn lemma_list_ops_within(nodes: Seq<ChromeNode>, parent: Parent, base: nat)
    ensures
        chrome_list_ops(nodes, parent, base).len() <= chrome_list_size(nodes),
    decreases nodes,
{
    if nodes.len() > 0 {
        lemma_ops_within(nodes[0], parent, base);
        let first = chrome_ops(nodes[0], parent, base);
        lemma_list_ops_within(nodes.subrange(1, nodes.len() as int), parent, base + first.len());
    }
}

/// Why a Chromium bookmark file gives no plan.
#[derive(PartialEq, Eq, Debug, Clone, Copy, Structural)]
pub enum ChromeFault {
    /// The text is no JSON document.
    NotJson,
    /// The file holds too many nodes to be counted.
    TooLarge,
}

/// The plan for the text of a Chromium `Bookmarks` file (see
/// [`plan_chrome`] and [`chrome_roots`]): `NotJson` where it does not parse,
/// `TooLarge` where its nodes, with three steps to spare, reach the largest
/// `usize`.
pub fn plan_chrome_text(text: &str, browser_name: &str) -> (r: Result<ImportPlan, ChromeFault>)
    ensures
        match json_parse(text@) {
            None => r matches Err(e) && e == ChromeFault::NotJson,
            Some(j) => if chrome_list_size(chrome_roots(j)) + 3 >= usize::MAX {
                r matches Err(e) && e == ChromeFault::TooLarge
            } else {
                r matches Ok(p) && !p.stopped && ops_view(p.ops@) == seq![
                    OpSpec::Folder { parent: Parent::Root, title: browser_name@, fallback: None },
                ] + chrome_list_ops(chrome_roots(j), Parent::Planned(0), 1)
            },
        },
{
    let j = match parse_json(text) {
        None => return Err(ChromeFault::NotJson),
        Some(j) => j,
    };
    let roots = chrome_nodes(&j);
    let ghost js = object_values(j, "roots"@);
    proof {
        let c = chrome_roots(j);
        assert(list_reads(c, js));
        law_chrome_reading_fixed(roots@, c, js);
    }
    let mut total: usize = 0;
    let mut i: usize = 0;
    assert(roots@.subrange(0, 0) =~= Seq::<ChromeNode>::empty());
    while i < roots.len()
        invariant
            i <= roots@.len(),
            total == capped(chrome_list_size(roots@.subrange(0, i as int))),
        decreases roots@.len() - i,
    {
        proof {
            lemma_list_size_prefix(roots@, i as int);
        }
        let c = chrome_count(&roots[i]);
        total = add_capped(total, c);
        i += 1;
    }
    assert(roots@.subrange(0, roots@.len() as int) =~= roots@);
    if total >= usize::MAX - 3 {
        return Err(ChromeFault::TooLarge);
    }
    proof {
        lemma_list_ops_within(roots@, Parent::Planned(0), 1);
    }
    Ok(plan_chrome(&roots, browser_name))
}

// ── Firefox places ─────────────────────────────────────────────────────────

/// A row of Firefox's `moz_bookmarks`: its id, its parent (0 where it has
/// none), its type (1 bookmark, 2 folder), its title and the place it links.
pub struct FfNode {
    pub id: i64,
    pub parent: i64,
    pub bk_type: i64,
    pub title: Option<String>,
    pub fk: Option<i64>,
}

/// The reader's state: the folder step each Firefox folder id became, the
/// steps so far, and the positions of the rows already decided.
pub struct FfState {
    pub ids: Map<i64, usize>,
    pub ops: Seq<OpSpec>,
    pub done: Set<int>,
}

/// `t` where it is present and not empty, else `d`.
pub open spec fn nonempty_or(t: Option<String>, d: Seq<char>) -> Seq<char> {
    match t {
        Some(s) => if s@.len() > 0 {
            s@
        } else {
            d
        },
        None => d,
    }
}

pub open spec fn place_prefix() -> Seq<u8> {
    seq![112u8, 108u8, 97u8, 99u8, 101u8, 58u8]
}

/// A `place:` address: a saved query, not a page.
pub open spec fn is_place_query(u: Seq<char>) -> bool {
    utf8(u).len() >= 6 && utf8(u).subrange(0, 6) == place_prefix()
}

pub open spec fn ff_start(root_id: i64, browser_name: Seq<char>) -> FfState {
    FfState {
        ids: map![root_id => 0usize],
        ops: seq![OpSpec::Folder { parent: Parent::Root, title: browser_name, fallback: None }],
        done: Set::empty(),
    }
}

/// What one row adds once its folder is known: the root row and rows whose
/// folder is unknown add nothing; a folder (`Закладки` where untitled) goes
/// under its parent's step; a bookmark takes its address from `places` and
/// its title (or the address) from the row, unless the address is a
/// `place:` query.
pub open spec fn ff_row(st: FfState, n: FfNode, root_id: i64, places: Map<i64, String>) -> FfState {
    if n.id == root_id || !st.ids.contains_key(n.parent) {
        st
    } else {
        let pd = st.ids[n.parent];
        if n.bk_type == 2 {
            let k = st.ops.len();
            FfState {
                ids: st.ids.insert(n.id, k as usize),
                ops: st.ops.push(
                    OpSpec::Folder {
                        parent: Parent::Planned(pd),
                        title: nonempty_or(n.title, "Закладки"@),
                        fallback: None,
                    },
                ),
                done: st.done,
            }
        } else if n.bk_type == 1 {
            match n.fk {
                Some(fk) => if places.contains_key(fk) && !is_place_query(places[fk]@) {
                    let url = places[fk]@;
                    FfState {
                        ids: st.ids,
                        ops: st.ops.push(
                            OpSpec::Bookmark {
                                parent: Parent::Planned(pd),
                                title: stored_title(nonempty_or(n.title, url), url),
                                url,
                                note: None,
                            },
                        ),
                        done: st.done,
                    }
                } else {
                    st
                },
                None => st,
            }
        } else {
            st
        }
    }
}

/// A row can be decided once it is the root row or its folder is known.
pub open spec fn ff_ready(st: FfState, n: FfNode, root_id: i64) -> bool {
    n.id == root_id || st.ids.contains_key(n.parent)
}

/// The row at position `j`, met in a pass: decided (and marked) where it is
/// not decided yet and can be.
pub open spec fn ff_take(st: FfState, n: FfNode, j: int, root_id: i64, places: Map<i64, String>) -> FfState {
    if st.done.contains(j) || !ff_ready(st, n, root_id) {
        st
    } else {
        let s = ff_row(st, n, root_id, places);
        FfState { ids: s.ids, ops: s.ops, done: s.done.insert(j) }
    }
}

/// One pass over the first `k` rows, in their order.
pub open spec fn ff_pass(rows: Seq<FfNode>, st: FfState, root_id: i64, places: Map<i64, String>, k: int) -> FfState
    decreases k,
{
    if k <= 0 || k > rows.len() {
        st
    } else {
        ff_take(ff_pass(rows, st, root_id, places, k - 1), rows[k - 1], k - 1, root_id, places)
    }
}

/// Passes over all rows, while a pass decides a row and `fuel` lasts.
pub open spec fn ff_passes(rows: Seq<FfNode>, st: FfState, root_id: i64, places: Map<i64, String>, fuel: nat) -> FfState
    decreases fuel,
{
    if fuel == 0 {
        st
    } else {
        let next = ff_pass(rows, st, root_id, places, rows.len() as int);
        if next.done == st.done {
            st
        } else {
            ff_passes(rows, next, root_id, places, (fuel - 1) as nat)
        }
    }
}

/// The whole import: from the browser's root folder, passes over the rows
/// until none is left that can be placed (a row whose folder comes later
/// in the rows is placed in a later pass).
pub open spec fn ff_import(rows: Seq<FfNode>, root_id: i64, browser_name: Seq<char>, places: Map<i64, String>) -> FfState {
    ff_passes(rows, ff_start(root_id, browser_name), root_id, places, (rows.len() + 1) as nat)
}

fn starts_with_place(u: &str) -> (r: bool)
    ensures
        r == is_place_query(u@),
{
    let b = u.as_bytes();
    if b.len() < 6 {
        return false;
    }
    let r = b[0] == 112u8 && b[1] == 108u8 && b[2] == 97u8 && b[3] == 99u8 && b[4] == 101u8 && b[5] == 58u8;
    assert(r == (b@.subrange(0, 6) =~= place_prefix()));
    r
}

/// Decides row `j` in the pass: the steps and folder ids grow as
/// [`ff_row`] says.
fn ff_apply(
    n: &FfNode,
    pd: usize,
    places: &HashMap<i64, String>,
    ids: &mut HashMap<i64, usize>,
    ops: &mut Vec<ImportOp>,
    Ghost(st): Ghost<FfState>,
    Ghost(root_id): Ghost<i64>,
)
    requires
        n.id != root_id,
        st.ids.contains_key(n.parent),
        st.ids[n.parent] == pd,
        old(ids)@ == st.ids,
        ops_view(old(ops)@) == st.ops,
    ensures
        final(ids)@ == ff_row(st, *n, root_id, places@).ids,
        ops_view(final(ops)@) == ff_row(st, *n, root_id, places@).ops,
{
    broadcast use vstd::std_specs::hash::group_hash_axioms;

    if n.bk_type == 2 {
        let title = match &n.title {
            Some(t) => if t.as_str().unicode_len() > 0 {
                t.clone()
            } else {
                "Закладки".to_owned()
            },
            None => "Закладки".to_owned(),
        };
        let k = ops.len();
        ops.push(ImportOp::Folder { parent: Parent::Planned(pd), title, fallback: None });
        ids.insert(n.id, k);
        assert(ops_view(ops@) =~= st.ops.push(
            OpSpec::Folder { parent: Parent::Planned(pd), title: nonempty_or(n.title, "Закладки"@), fallback: None },
        ));
    } else if n.bk_type == 1 {
        match n.fk {
            Some(fk) => {
                match places.get(&fk) {
                    Some(url) => {
                        if !starts_with_place(url.as_str()) {
                            let name: &str = match &n.title {
                                Some(t) => if t.as_str().unicode_len() > 0 {
                                    t.as_str()
                                } else {
                                    url.as_str()
                                },
                                None => url.as_str(),
                            };
                            let title = bookmark_title(name, url.as_str());
                            let ghost tv = title@;
                            ops.push(ImportOp::Bookmark { parent: Parent::Planned(pd), title, url: url.clone(), note: None });
                            assert(ops_view(ops@) =~= st.ops.push(
                                OpSpec::Bookmark { parent: Parent::Planned(pd), title: tv, url: url@, note: None },
                            ));
                        }
                    },
                    None => {},
                }
            },
            None => {},
        }
    }
}

/// The plan for a Firefox profile's bookmarks: a root folder named after the
/// browser standing for the Firefox root `root_id`, then the rows as
/// [`ff_import`] says: each row whose folder is known is decided in row
/// order, in as many passes as it takes for folders that come after their
/// contents.
pub fn plan_firefox(root_id: i64, rows: &Vec<FfNode>, places: &HashMap<i64, String>, browser_name: &str) -> (r: ImportPlan)
    requires
        rows@.len() + 2 < usize::MAX,
    ensures
        !r.stopped,
        ops_view(r.ops@) == ff_import(rows@, root_id, browser_name@, places@).ops,
{
    broadcast use vstd::std_specs::hash::group_hash_axioms;

    let mut ids: HashMap<i64, usize> = HashMap::new();
    ids.insert(root_id, 0);
    let mut ops: Vec<ImportOp> = Vec::new();
    ops.push(ImportOp::Folder { parent: Parent::Root, title: browser_name.to_owned(), fallback: None });
    let ghost all = rows@;
    let ghost pl = places@;
    let n = rows.len();
    let mut done: Vec<bool> = Vec::new();
    while done.len() < n
        invariant
            n == all.len(),
            done@.len() <= n,
            forall|j: int| 0 <= j < done@.len() ==> !done@[j],
        decreases n - done@.len(),
    {
        done.push(false);
    }
    let ghost mut cur = ff_start(root_id, browser_name@);
    assert(ids@ =~= cur.ids);
    assert(ops_view(ops@) =~= cur.ops);
    let mut fuel: usize = n + 1;
    while fuel > 0
        invariant
            all == rows@,
            pl == places@,
            n == all.len(),
            done@.len() == n,
            ids@ == cur.ids,
            ops_view(ops@) == cur.ops,
            forall|j: int| 0 <= j < n ==> (done@[j] <==> #[trigger] cur.done.contains(j)),
            ff_passes(all, cur, root_id, pl, fuel as nat) == ff_import(all, root_id, browser_name@, pl),
        decreases fuel,
    {
        let ghost st0 = cur;
        let mut progress = false;
        let ghost mut wit: int = 0;
        let mut j: usize = 0;
        while j < n
            invariant
                all == rows@,
                pl == places@,
                n == all.len(),
                j <= n,
                done@.len() == n,
                cur == ff_pass(all, st0, root_id, pl, j as int),
                ids@ == cur.ids,
                ops_view(ops@) == cur.ops,
                forall|i: int| 0 <= i < n ==> (done@[i] <==> #[trigger] cur.done.contains(i)),
                forall|x: int| #[trigger] st0.done.contains(x) ==> cur.done.contains(x),
                !progress ==> cur == st0,
                progress ==> cur.done.contains(wit) && !st0.done.contains(wit),
            decreases n - j,
        {
            let ghost before = cur;
            let r = &rows[j];
            assert(ff_pass(all, st0, root_id, pl, j + 1) == ff_take(before, all[j as int], j as int, root_id, pl));
            if !done[j] {
                if r.id == root_id {
                    done.set(j, true);
                    proof {
                        wit = j as int;
                    }
                    progress = true;
                } else {
                    match ids.get(&r.parent) {
                        None => {},
                        Some(pd_ref) => {
                            let pd = *pd_ref;
                            ff_apply(r, pd, places, &mut ids, &mut ops, Ghost(before), Ghost(root_id));
                            done.set(j, true);
                            proof {
                                wit = j as int;
                            }
                            progress = true;
                        },
                    }
                }
            }
            proof {
                cur = ff_take(before, all[j as int], j as int, root_id, pl);
            }
            j += 1;
        }
        if !progress {
            assert(ff_passes(all, st0, root_id, pl, fuel as nat) == st0);
            fuel = 0;
        } else {
            assert(cur.done != st0.done);
            fuel = fuel - 1;
        }
    }
    ImportPlan { ops, stopped: false }
}

pub open spec fn ff_state_ok(st: FfState, n: nat) -> bool {
    &&& plan_well_formed(st.ops)
    &&& forall|id: i64| #[trigger] st.ids.contains_key(id) ==> names_folder(st.ops, st.ids[id] as nat)
    &&& st.done.finite()
    &&& forall|j: int| #[trigger] st.done.contains(j) ==> 0 <= j < n
    &&& st.ops.len() <= st.done.len() + 1
}

proof fn lemma_done_len(st: FfState, n: nat)
    requires
        st.done.finite(),
        forall|j: int| #[trigger] st.done.contains(j) ==> 0 <= j < n,
    ensures
        st.done.len() <= n,
{
    vstd::set_lib::lemma_int_range(0, n as int);
    assert(st.done.subset_of(vstd::set_lib::set_int_range(0, n as int)));
    vstd::set_lib::lemma_len_subset(st.done, vstd::set_lib::set_int_range(0, n as int));
}

proof fn lemma_ff_take(st: FfState, row: FfNode, j: int, root_id: i64, places: Map<i64, String>, n: nat)
    requires
        ff_state_ok(st, n),
        0 <= j < n,
        n + 2 < usize::MAX,
    ensures
        ff_state_ok(ff_take(st, row, j, root_id, places), n),
        st.done.subset_of(ff_take(st, row, j, root_id, places).done),
        ff_take(st, row, j, root_id, places).done == st.done ==> ff_take(st, row, j, root_id, places) == st,
{
    let r = ff_take(st, row, j, root_id, places);
    if !(st.done.contains(j) || !ff_ready(st, row, root_id)) {
        lemma_done_len(st, n);
        vstd::set::axiom_set_insert_len(st.done, j);
        vstd::set::axiom_set_insert_finite(st.done, j);
        assert(r.done.contains(j));
        assert forall|x: int| 0 <= x < st.ops.len() implies #[trigger] r.ops[x] == st.ops[x] by {}
        assert forall|x: int| 0 <= x < r.ops.len() implies match #[trigger] op_parent(r.ops[x]) {
            Parent::Planned(i) => i < x && r.ops[i as int] is Folder,
            _ => true,
        } by {
            if x < st.ops.len() {
                assert(op_parent(st.ops[x]) == op_parent(r.ops[x]));
            } else {
                let pd = st.ids[row.parent];
                assert(names_folder(st.ops, pd as nat));
                assert(r.ops[pd as int] == st.ops[pd as int]);
            }
        }
        assert forall|id: i64| #[trigger] r.ids.contains_key(id) implies names_folder(r.ops, r.ids[id] as nat) by {
            if st.ids.contains_key(id) && r.ids[id] == st.ids[id] {
                assert(r.ops[st.ids[id] as int] == st.ops[st.ids[id] as int]);
            }
        }
    }
}

proof fn lemma_ff_pass(rows: Seq<FfNode>, st: FfState, root_id: i64, places: Map<i64, String>, k: int)
    requires
        ff_state_ok(st, rows.len()),
        rows.len() + 2 < usize::MAX,
        0 <= k <= rows.len(),
    ensures
        ff_state_ok(ff_pass(rows, st, root_id, places, k), rows.len()),
        st.done.subset_of(ff_pass(rows, st, root_id, places, k).done),
        ff_pass(rows, st, root_id, places, k).done == st.done ==> {
            &&& ff_pass(rows, st, root_id, places, k) == st
            &&& forall|j: int| 0 <= j < k && !st.done.contains(j) ==> !ff_ready(st, #[trigger] rows[j], root_id)
        },
    decreases k,
{
    if k > 0 {
        lemma_ff_pass(rows, st, root_id, places, k - 1);
        let p = ff_pass(rows, st, root_id, places, k - 1);
        lemma_ff_take(p, rows[k - 1], k - 1, root_id, places, rows.len());
        let q = ff_pass(rows, st, root_id, places, k);
        if q.done == st.done {
            assert(p.done =~= st.done);
            assert(p == st);
        }
    }
}

proof fn lemma_ff_passes(rows: Seq<FfNode>, st: FfState, root_id: i64, places: Map<i64, String>, fuel: nat)
    requires
        ff_state_ok(st, rows.len()),
        rows.len() + 2 < usize::MAX,
        st.done.len() + fuel > rows.len(),
    ensures
        ff_state_ok(ff_passes(rows, st, root_id, places, fuel), rows.len()),
        forall|j: int|
            0 <= j < rows.len() && !ff_passes(rows, st, root_id, places, fuel).done.contains(j) ==> !ff_ready(
                ff_passes(rows, st, root_id, places, fuel),
                #[trigger] rows[j],
                root_id,
            ),
    decreases fuel,
{
    lemma_done_len(st, rows.len());
    if fuel > 0 {
        let next = ff_pass(rows, st, root_id, places, rows.len() as int);
        lemma_ff_pass(rows, st, root_id, places, rows.len() as int);
        if next.done != st.done {
            vstd::set_lib::lemma_len_subset(st.done, next.done);
            if st.done.len() == next.done.len() {
                vstd::set_lib::lemma_subset_equality(st.done, next.done);
            }
            lemma_ff_passes(rows, next, root_id, places, (fuel - 1) as nat);
        }
    }
}

/// A Firefox plan places each folder and bookmark in the root or in a folder
/// created before it.
pub proof fn law_firefox_plan_well_formed(rows: Seq<FfNode>, root_id: i64, browser_name: Seq<char>, places: Map<i64, String>)
    requires
        rows.len() + 2 < usize::MAX,
    ensures
        plan_well_formed(ff_import(rows, root_id, browser_name, places).ops),
{
    let st = ff_start(root_id, browser_name);
    assert(st.done.len() == 0);
    lemma_ff_passes(rows, st, root_id, places, (rows.len() + 1) as nat);
}

/// The Firefox import leaves no row out whose folder it planned: every row
/// it did not decide is not the root row and has a folder that was never
/// placed, so each bookmark whose chain of folders reaches the root is
/// decided, whatever the order of the rows.
pub proof fn law_firefox_import_complete(rows: Seq<FfNode>, root_id: i64, browser_name: Seq<char>, places: Map<i64, String>)
    requires
        rows.len() + 2 < usize::MAX,
    ensures
        forall|j: int|
            0 <= j < rows.len() && !ff_import(rows, root_id, browser_name, places).done.contains(j) ==> {
                &&& #[trigger] rows[j].id != root_id
                &&& !ff_import(rows, root_id, browser_name, places).ids.contains_key(rows[j].parent)
            },
{
    let st = ff_start(root_id, browser_name);
    assert(st.done.len() == 0);
    lemma_ff_passes(rows, st, root_id, places, (rows.len() + 1) as nat);
}

// ── Plain-text lists ───────────────────────────────────────────────────────

/// The characters of `t` before its first tab and after it (all of `t` and
/// nothing where it has none).
pub open spec fn split_tab(t: Seq<char>) -> (Seq<char>, Seq<char>) {
    match find(utf8(t), seq![9u8]) {
        Some(i) => (
            decode_utf8(utf8(t).subrange(0, i)),
            decode_utf8(utf8(t).subrange(i + 1, utf8(t).len() as int)),
        ),
        None => (t, Seq::empty()),
    }
}

/// The bookmark one line of a text list gives, as (title, address): the
/// trimmed line is the address, or, where it holds a tab, the trimmed text
/// before the tab is the address and the trimmed text after it the title
/// (the address where empty). Blank lines, lines starting with `#` and
/// empty addresses give none.
pub open spec fn txt_entry(line: Seq<u8>) -> Option<(Seq<char>, Seq<char>)> {
    let t = str_trim(decode_utf8(line));
    if t.len() == 0 || t[0] == '#' {
        None
    } else {
        let (url, title) = if find(utf8(t), seq![9u8]) is Some {
            (str_trim(split_tab(t).0), str_trim(split_tab(t).1))
        } else {
            (t, t)
        };
        if url.len() == 0 {
            None
        } else {
            Some((stored_title(if title.len() == 0 { url } else { title }, url), url))
        }
    }
}

/// The bookmark steps for the lines of a text list, all into `folder`.
pub open spec fn txt_ops(lines: Seq<Seq<u8>>, folder: i64) -> Seq<OpSpec>
    decreases lines.len(),
{
    if lines.len() == 0 {
        Seq::empty()
    } else {
        let rest = txt_ops(lines.drop_last(), folder);
        match txt_entry(lines.last()) {
            Some((title, url)) => rest.push(
                OpSpec::Bookmark { parent: Parent::Existing(folder), title, url, note: None },
            ),
            None => rest,
        }
    }
}

fn txt_line_entry(line: &str) -> (r: Option<(String, String)>)
    ensures
        match txt_entry(line.spec_bytes()) {
            Some((title, url)) => r matches Some((t, u)) && t@ == title && u@ == url,
            None => r is None,
        },
{
    proof {
        lemma_str_bytes(line);
        encode_utf8_decode_utf8(line@);
    }
    let t = trim(line);
    let n = t.unicode_len();
    if n == 0 || t.get_char(0) == '#' {
        return None;
    }
    let tab: Vec<u8> = vec![9u8];
    assert(tab@ =~= seq![9u8]);
    proof {
        lemma_str_bytes(t);
        lemma_find_from(t.spec_bytes(), seq![9u8], 0);
    }
    let tb = t.as_bytes();
    let (url, title): (&str, &str) = match find_bytes(tb, tab.as_slice()) {
        Some(i) => {
            proof {
                assert(t.spec_bytes().subrange(i as int, i + 1)[0] == 9u8);
                lemma_ascii_boundary(t.spec_bytes(), i as int);
            }
            assert(i + 1 <= tb.len());
            let a = substr(t, 0, i);
            let b = substr(t, i + 1, tb.len());
            proof {
                encode_utf8_decode_utf8(a@);
                encode_utf8_decode_utf8(b@);
            }
            (trim(a), trim(b))
        },
        None => (t, t),
    };
    if url.unicode_len() == 0 {
        return None;
    }
    let shown: &str = if title.unicode_len() == 0 {
        url
    } else {
        title
    };
    Some((bookmark_title(shown, url), url.to_owned()))
}

/// The bookmarks a text list adds to `folder` (the store's folder 0 where
/// none is open), one step per line that gives one (see [`txt_entry`]).
/// Each step is tried on its own: a refused one is skipped, not fatal.
pub fn plan_txt(text: &str, folder: Option<i64>) -> (r: Vec<ImportOp>)
    ensures
        ops_view(r@) == txt_ops(
            lines_of(text.spec_bytes()),
            match folder {
                Some(f) => f,
                None => 0,
            },
        ),
{
    let fid: i64 = match folder {
        Some(f) => f,
        None => 0,
    };
    let lines = split_lines(text);
    let ghost ls = lines_of(text.spec_bytes());
    let mut ops: Vec<ImportOp> = Vec::new();
    assert(ls.take(0) =~= Seq::<Seq<u8>>::empty());
    assert(ops_view(ops@) =~= Seq::<OpSpec>::empty());
    let mut i: usize = 0;
    while i < lines.len()
        invariant
            str_bytes_seq(lines@) == ls,
            i <= lines@.len(),
            ops_view(ops@) == txt_ops(ls.take(i as int), fid),
        decreases lines@.len() - i,
    {
        let ghost pre = ops_view(ops@);
        assert(ls.take(i + 1).drop_last() =~= ls.take(i as int));
        assert(ls[i as int] == lines@[i as int].spec_bytes());
        match txt_line_entry(lines[i]) {
            Some((title, url)) => {
                let ghost tv = title@;
                let ghost uv = url@;
                ops.push(ImportOp::Bookmark { parent: Parent::Existing(fid), title, url, note: None });
                assert(ops_view(ops@) =~= pre.push(
                    OpSpec::Bookmark { parent: Parent::Existing(fid), title: tv, url: uv, note: None },
                ));
            },
            None => {},
        }
        i += 1;
    }
    assert(ls.take(i as int) =~= ls);
    ops
}

} // verus!
