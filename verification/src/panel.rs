//! The list beside the tree: the sub-folders of the open folder, then its
//! bookmarks (or the search results) sorted by title or address, ignoring
//! case, either way round.

use vstd::prelude::*;
use vstd::string::StringSliceAdditionalSpecFns;
use std::collections::HashMap;
use crate::album::{check_column, SortBy};
use crate::bookmarks::{BookmarkView, DbBookmark, DbFolder};
use crate::text::{str_lowercase, to_lowercase, utf8};

verus! {

/// Byte-wise lexicographic order, as `str` and `String` compare.
pub open spec fn lex_lt(a: Seq<u8>, b: Seq<u8>) -> bool
    decreases a.len(),
{
    if b.len() == 0 {
        false
    } else if a.len() == 0 {
        true
    } else if a[0] != b[0] {
        a[0] < b[0]
    } else {
        lex_lt(a.drop_first(), b.drop_first())
    }
}

pub fn bytes_lt(a: &[u8], b: &[u8]) -> (r: bool)
    ensures
        r == lex_lt(a@, b@),
{
    let mut i: usize = 0;
    assert(a@.subrange(0, a@.len() as int) =~= a@);
    assert(b@.subrange(0, b@.len() as int) =~= b@);
    while i < a.len() && i < b.len() && a[i] == b[i]
        invariant
            i <= a@.len(),
            i <= b@.len(),
            lex_lt(a@, b@) == lex_lt(a@.subrange(i as int, a@.len() as int), b@.subrange(i as int, b@.len() as int)),
        decreases a@.len() - i,
    {
        let ghost sa = a@.subrange(i as int, a@.len() as int);
        let ghost sb = b@.subrange(i as int, b@.len() as int);
        assert(sa.drop_first() =~= a@.subrange(i + 1, a@.len() as int));
        assert(sb.drop_first() =~= b@.subrange(i + 1, b@.len() as int));
        i += 1;
    }
    let ghost sa = a@.subrange(i as int, a@.len() as int);
    let ghost sb = b@.subrange(i as int, b@.len() as int);
    if i == b.len() {
        false
    } else if i == a.len() {
        true
    } else {
        assert(sa[0] == a@[i as int] && sb[0] == b@[i as int]);
        a[i] < b[i]
    }
}

/// Where a stable sort puts a new item with key `k` among `sorted` (by the
/// keys `keys`): after every item it does not come strictly before.
pub open spec fn insert_at(keys: Seq<Seq<u8>>, sorted: Seq<int>, k: Seq<u8>, asc: bool) -> int
    decreases sorted.len(),
{
    if sorted.len() == 0 {
        0
    } else {
        let last = keys[sorted.last()];
        let before = if asc {
            lex_lt(k, last)
        } else {
            lex_lt(last, k)
        };
        if before {
            insert_at(keys, sorted.drop_last(), k, asc)
        } else {
            sorted.len() as int
        }
    }
}

/// The indices of `keys` in the order of a stable sort, ascending or
/// descending (equal keys keep their order either way).
pub open spec fn stable_order(keys: Seq<Seq<u8>>, n: nat, asc: bool) -> Seq<int>
    decreases n,
{
    if n == 0 {
        Seq::empty()
    } else {
        let s = stable_order(keys, (n - 1) as nat, asc);
        let p = insert_at(keys, s, keys[n - 1], asc);
        s.insert(p, n - 1)
    }
}

proof fn lemma_insert_at_range(keys: Seq<Seq<u8>>, sorted: Seq<int>, k: Seq<u8>, asc: bool)
    ensures
        0 <= insert_at(keys, sorted, k, asc) <= sorted.len(),
    decreases sorted.len(),
{
    if sorted.len() > 0 {
        lemma_insert_at_range(keys, sorted.drop_last(), k, asc);
    }
}

proof fn lemma_stable_order_len(keys: Seq<Seq<u8>>, n: nat, asc: bool)
    ensures
        stable_order(keys, n, asc).len() == n,
        forall|j: int| 0 <= j < n ==> 0 <= #[trigger] stable_order(keys, n, asc)[j] < n,
    decreases n,
{
    if n > 0 {
        let s = stable_order(keys, (n - 1) as nat, asc);
        lemma_stable_order_len(keys, (n - 1) as nat, asc);
        lemma_insert_at_range(keys, s, keys[n - 1], asc);
        let p = insert_at(keys, s, keys[n - 1], asc);
        let t = s.insert(p, n - 1);
        assert forall|j: int| 0 <= j < n implies 0 <= #[trigger] t[j] < n by {
            if j < p {
                assert(t[j] == s[j]);
            } else if j > p {
                assert(t[j] == s[j - 1]);
            }
        }
    }
}

fn find_insert_at(keys: &Vec<Vec<u8>>, sorted: &Vec<usize>, k: &Vec<u8>, asc: bool) -> (r: usize)
    requires
        forall|j: int| 0 <= j < sorted@.len() ==> #[trigger] sorted@[j] < keys@.len(),
    ensures
        r as int == insert_at(key_views(keys@), usize_seq(sorted@), k@, asc),
        r <= sorted@.len(),
{
    let mut p: usize = sorted.len();
    let ghost ks = key_views(keys@);
    let ghost ss = usize_seq(sorted@);
    assert(ss.subrange(0, p as int) =~= ss);
    while p > 0
        invariant
            ks == key_views(keys@),
            ss == usize_seq(sorted@),
            p <= sorted@.len(),
            forall|j: int| 0 <= j < sorted@.len() ==> #[trigger] sorted@[j] < keys@.len(),
            insert_at(ks, ss, k@, asc) == insert_at(ks, ss.subrange(0, p as int), k@, asc),
        decreases p,
    {
        let last = &keys[sorted[p - 1]];
        let before = if asc {
            bytes_lt(k.as_slice(), last.as_slice())
        } else {
            bytes_lt(last.as_slice(), k.as_slice())
        };
        let ghost sub = ss.subrange(0, p as int);
        assert(sub.last() == sorted@[p - 1] as int);
        assert(ks[sub.last()] == last@);
        if !before {
            return p;
        }
        assert(sub.drop_last() =~= ss.subrange(0, p - 1));
        p -= 1;
    }
    p
}

pub open spec fn key_views(v: Seq<Vec<u8>>) -> Seq<Seq<u8>> {
    v.map_values(|k: Vec<u8>| k@)
}

pub open spec fn usize_seq(v: Seq<usize>) -> Seq<int> {
    v.map_values(|i: usize| i as int)
}

/// The stable sort of the indices of `keys`.
pub fn stable_sort_indices(keys: &Vec<Vec<u8>>, asc: bool) -> (r: Vec<usize>)
    ensures
        usize_seq(r@) == stable_order(key_views(keys@), keys@.len() as nat, asc),
{
    let mut sorted: Vec<usize> = Vec::new();
    let mut i: usize = 0;
    let ghost ks = key_views(keys@);
    while i < keys.len()
        invariant
            ks == key_views(keys@),
            i <= keys@.len(),
            usize_seq(sorted@) == stable_order(ks, i as nat, asc),
            sorted@.len() == i,
            forall|j: int| 0 <= j < sorted@.len() ==> #[trigger] sorted@[j] < i,
        decreases keys@.len() - i,
    {
        let p = find_insert_at(keys, &sorted, &keys[i], asc);
        let ghost before = usize_seq(sorted@);
        let ghost old_sorted = sorted@;
        sorted.insert(p, i);
        assert(usize_seq(sorted@) =~= before.insert(p as int, i as int));
        i += 1;
        assert forall|j: int| 0 <= j < sorted@.len() implies #[trigger] sorted@[j] < i by {
            if j < p {
                assert(sorted@[j] == old_sorted[j]);
            } else if j > p {
                assert(sorted@[j] == old_sorted[j - 1]);
            }
        }
    }
    sorted
}

// ── What the order is ──────────────────────────────────────────────────────

/// `a` sorts strictly before `b`, ascending or descending.
pub open spec fn key_before(a: Seq<u8>, b: Seq<u8>, asc: bool) -> bool {
    if asc {
        lex_lt(a, b)
    } else {
        lex_lt(b, a)
    }
}

proof fn lemma_lex_irreflexive(a: Seq<u8>)
    ensures
        !lex_lt(a, a),
    decreases a.len(),
{
    if a.len() > 0 {
        lemma_lex_irreflexive(a.drop_first());
    }
}

proof fn lemma_lex_transitive(a: Seq<u8>, b: Seq<u8>, c: Seq<u8>)
    requires
        lex_lt(a, b),
        lex_lt(b, c),
    ensures
        lex_lt(a, c),
    decreases a.len(),
{
    if a.len() > 0 && b.len() > 0 && c.len() > 0 && a[0] == b[0] && b[0] == c[0] {
        lemma_lex_transitive(a.drop_first(), b.drop_first(), c.drop_first());
    }
}

proof fn lemma_lex_total(a: Seq<u8>, b: Seq<u8>)
    requires
        a != b,
    ensures
        lex_lt(a, b) || lex_lt(b, a),
    decreases a.len(),
{
    if a.len() == 0 && b.len() == 0 {
        assert(a =~= b);
    }
    if a.len() > 0 && b.len() > 0 && a[0] == b[0] {
        if a.drop_first() == b.drop_first() {
            assert(a =~= seq![a[0]] + a.drop_first());
            assert(b =~= seq![b[0]] + b.drop_first());
        }
        lemma_lex_total(a.drop_first(), b.drop_first());
    }
}

proof fn lemma_key_order(a: Seq<u8>, b: Seq<u8>, c: Seq<u8>, asc: bool)
    ensures
        !key_before(a, a, asc),
        key_before(a, b, asc) && key_before(b, c, asc) ==> key_before(a, c, asc),
        a != b ==> key_before(a, b, asc) || key_before(b, a, asc),
{
    lemma_lex_irreflexive(a);
    if key_before(a, b, asc) && key_before(b, c, asc) {
        if asc {
            lemma_lex_transitive(a, b, c);
        } else {
            lemma_lex_transitive(c, b, a);
        }
    }
    if a != b {
        lemma_lex_total(a, b);
    }
}

/// Where [`insert_at`] puts a new key: after every item that does not sort
/// after it, before the items that do.
proof fn lemma_insert_at_place(keys: Seq<Seq<u8>>, sorted: Seq<int>, k: Seq<u8>, asc: bool)
    ensures
        ({
            let p = insert_at(keys, sorted, k, asc);
            &&& 0 <= p <= sorted.len()
            &&& forall|j: int| p <= j < sorted.len() ==> key_before(k, #[trigger] keys[sorted[j]], asc)
            &&& p > 0 ==> !key_before(k, keys[sorted[p - 1]], asc)
        }),
    decreases sorted.len(),
{
    if sorted.len() > 0 {
        let init = sorted.drop_last();
        lemma_insert_at_place(keys, init, k, asc);
        let p = insert_at(keys, sorted, k, asc);
        if key_before(k, keys[sorted.last()], asc) {
            assert forall|j: int| p <= j < sorted.len() implies key_before(k, #[trigger] keys[sorted[j]], asc) by {
                if j < sorted.len() - 1 {
                    assert(sorted[j] == init[j]);
                }
            }
            if p > 0 {
                assert(sorted[p - 1] == init[p - 1]);
            }
        }
    }
}

/// [`stable_order`] is a stable sort of the first `n` indices: each index
/// once, the keys in order (ascending or descending), and items with equal
/// keys in their first order.
pub proof fn law_stable_order_sorts(keys: Seq<Seq<u8>>, n: nat, asc: bool)
    requires
        n <= keys.len(),
    ensures
        ({
            let s = stable_order(keys, n, asc);
            &&& s.len() == n
            &&& forall|j: int| 0 <= j < n ==> 0 <= #[trigger] s[j] < n
            &&& forall|i: int, j: int| 0 <= i < j < n ==> s[i] != s[j]
            &&& forall|i: int, j: int| 0 <= i < j < n ==> !key_before(keys[s[j]], keys[s[i]], asc)
            &&& forall|i: int, j: int| 0 <= i < j < n && keys[s[i]] == keys[s[j]] ==> s[i] < s[j]
        }),
    decreases n,
{
    lemma_stable_order_len(keys, n, asc);
    if n > 0 {
        let m = (n - 1) as nat;
        law_stable_order_sorts(keys, m, asc);
        let old = stable_order(keys, m, asc);
        let k = keys[n - 1];
        let p = insert_at(keys, old, k, asc);
        lemma_insert_at_place(keys, old, k, asc);
        let s = old.insert(p, n - 1);
        assert(s == stable_order(keys, n, asc));
        assert forall|j: int| 0 <= j < n implies #[trigger] s[j] == if j < p {
            old[j]
        } else if j == p {
            n - 1
        } else {
            old[j - 1]
        } by {}
        assert forall|i: int, j: int| 0 <= i < j < n implies s[i] != s[j] by {}
        assert forall|i: int, j: int| 0 <= i < j < n implies !key_before(keys[s[j]], keys[s[i]], asc) by {
            if i == p {
                assert(key_before(k, keys[old[j - 1]], asc));
                lemma_key_order(keys[s[j]], k, keys[s[j]], asc);
            } else if j == p {
                let last = keys[old[p - 1]];
                let x = keys[old[i]];
                if i < p - 1 {
                    assert(!key_before(last, x, asc));
                    lemma_key_order(x, last, last, asc);
                    lemma_key_order(k, x, last, asc);
                }
            } else {
                let i2 = if i < p { i } else { i - 1 };
                let j2 = if j < p { j } else { j - 1 };
                assert(!key_before(keys[old[j2]], keys[old[i2]], asc));
            }
        }
        assert forall|i: int, j: int| 0 <= i < j < n && keys[s[i]] == keys[s[j]] implies s[i] < s[j] by {
            if i == p {
                assert(key_before(k, keys[old[j - 1]], asc));
                lemma_key_order(k, k, k, asc);
            } else if j != p {
                let i2 = if i < p { i } else { i - 1 };
                let j2 = if j < p { j } else { j - 1 };
                assert(old[i2] < old[j2]);
            }
        }
    }
}

// ── The rows ───────────────────────────────────────────────────────────────

/// A row of the list: a folder (kind 0, with its bookmark count) or a
/// bookmark (kind 1, with its address, note, check result and selection).
pub struct RightRow {
    pub id: i32,
    pub kind: i32,
    pub title: String,
    pub url: String,
    pub note: String,
    pub check_status: String,
    pub count: i32,
    pub selected: bool,
}

pub struct RowView {
    pub id: i32,
    pub kind: i32,
    pub title: Seq<char>,
    pub url: Seq<char>,
    pub note: Seq<char>,
    pub check_status: Seq<char>,
    pub count: i32,
    pub selected: bool,
}

impl View for RightRow {
    type V = RowView;

    open spec fn view(&self) -> RowView {
        RowView {
            id: self.id,
            kind: self.kind,
            title: self.title@,
            url: self.url@,
            note: self.note@,
            check_status: self.check_status@,
            count: self.count,
            selected: self.selected,
        }
    }
}

pub open spec fn row_views(v: Seq<RightRow>) -> Seq<RowView> {
    v.map_values(|r: RightRow| r@)
}

pub open spec fn text_or_empty(o: Option<Seq<char>>) -> Seq<char> {
    match o {
        Some(s) => s,
        None => Seq::empty(),
    }
}

pub open spec fn check_of(checks: Map<i64, (bool, String)>, id: i64) -> Option<(bool, Seq<char>)> {
    if checks.contains_key(id) {
        Some((checks[id].0, checks[id].1@))
    } else {
        None
    }
}

/// The row of a bookmark.
pub open spec fn bookmark_row(b: BookmarkView, checks: Map<i64, (bool, String)>, selected: Option<i64>) -> RowView {
    RowView {
        id: b.id as i32,
        kind: 1,
        title: b.title,
        url: text_or_empty(b.url),
        note: text_or_empty(b.note),
        check_status: check_column(check_of(checks, b.id)),
        count: 0,
        selected: selected == Some(b.id),
    }
}

/// The row of a folder.
pub open spec fn folder_row(f: DbFolder, counts: Map<i64, i64>) -> RowView {
    RowView {
        id: f.id as i32,
        kind: 0,
        title: f.title@,
        url: Seq::empty(),
        note: Seq::empty(),
        check_status: Seq::empty(),
        count: if counts.contains_key(f.id) {
            counts[f.id] as i32
        } else {
            0
        },
        selected: false,
    }
}

/// The key a bookmark is sorted by: its title or address (empty where it has
/// none), lower-cased.
pub open spec fn sort_key(b: BookmarkView, by: SortBy) -> Seq<u8> {
    match by {
        SortBy::Title => utf8(str_lowercase(b.title)),
        SortBy::Url => utf8(str_lowercase(text_or_empty(b.url))),
    }
}

pub open spec fn keys_of(bms: Seq<BookmarkView>, by: SortBy) -> Seq<Seq<u8>> {
    bms.map_values(|b: BookmarkView| sort_key(b, by))
}

pub open spec fn bookmark_views(v: Seq<DbBookmark>) -> Seq<BookmarkView> {
    v.map_values(|b: DbBookmark| b@)
}

/// The bookmark rows in sorted order.
pub open spec fn sorted_rows(
    bms: Seq<BookmarkView>,
    by: SortBy,
    asc: bool,
    checks: Map<i64, (bool, String)>,
    selected: Option<i64>,
) -> Seq<RowView> {
    stable_order(keys_of(bms, by), bms.len(), asc).map_values(|i: int| bookmark_row(bms[i], checks, selected))
}

/// The rows of the folders directly inside `folder`, in list order.
pub open spec fn subfolder_rows(fs: Seq<DbFolder>, folder: i64, counts: Map<i64, i64>) -> Seq<RowView>
    decreases fs.len(),
{
    if fs.len() == 0 {
        Seq::empty()
    } else {
        let rest = subfolder_rows(fs.drop_last(), folder, counts);
        if fs.last().parent_id == Some(folder) {
            rest.push(folder_row(fs.last(), counts))
        } else {
            rest
        }
    }
}

fn text_of(o: &Option<String>) -> (r: String)
    ensures
        r@ == text_or_empty(crate::bookmarks::opt_chars(*o)),
{
    match o {
        Some(s) => s.as_str().to_owned(),
        None => String::new(),
    }
}

fn make_bookmark_row(b: &DbBookmark, checks: &HashMap<i64, (bool, String)>, selected: Option<i64>) -> (r: RightRow)
    ensures
        r@ == bookmark_row(b@, checks@, selected),
{
    broadcast use vstd::std_specs::hash::group_hash_axioms;

    let check = crate::album::check_status_text(checks.get(&b.id));
    RightRow {
        id: #[verifier::truncate]
        (b.id as i32),
        kind: 1,
        title: b.title.as_str().to_owned(),
        url: text_of(&b.url),
        note: text_of(&b.note),
        check_status: check,
        count: 0,
        selected: match selected {
            Some(s) => s == b.id,
            None => false,
        },
    }
}

/// The rows for `bms` in the order given.
pub fn bookmark_rows(bms: &Vec<DbBookmark>, checks: &HashMap<i64, (bool, String)>, selected: Option<i64>) -> (r: Vec<RightRow>)
    ensures
        row_views(r@) == bookmark_views(bms@).map_values(|b: BookmarkView| bookmark_row(b, checks@, selected)),
{
    let mut out: Vec<RightRow> = Vec::new();
    let mut i: usize = 0;
    while i < bms.len()
        invariant
            i <= bms@.len(),
            row_views(out@) == bookmark_views(bms@).take(i as int).map_values(
                |b: BookmarkView| bookmark_row(b, checks@, selected),
            ),
        decreases bms@.len() - i,
    {
        let row = make_bookmark_row(&bms[i], checks, selected);
        let ghost before = row_views(out@);
        let ghost rv = row@;
        assert(bookmark_views(bms@)[i as int] == bms@[i as int]@);
        out.push(row);
        assert(row_views(out@) =~= before.push(rv));
        i += 1;
        assert(bookmark_views(bms@).take(i as int) =~= bookmark_views(bms@).take(i - 1).push(bms@[i - 1]@));
        assert(row_views(out@) =~= bookmark_views(bms@).take(i as int).map_values(
            |b: BookmarkView| bookmark_row(b, checks@, selected),
        ));
    }
    assert(bookmark_views(bms@).take(i as int) =~= bookmark_views(bms@));
    out
}

fn sort_key_of(b: &DbBookmark, by: SortBy) -> (r: Vec<u8>)
    ensures
        r@ == sort_key(b@, by),
{
    let lower = match by {
        SortBy::Title => to_lowercase(b.title.as_str()),
        SortBy::Url => {
            let t = text_of(&b.url);
            to_lowercase(t.as_str())
        },
    };
    vstd::slice::slice_to_vec(lower.as_str().as_bytes())
}

/// The rows for `bms` sorted by `by`, ascending or descending, equal keys in
/// their given order.
pub fn sorted_bookmark_rows(
    bms: &Vec<DbBookmark>,
    by: SortBy,
    asc: bool,
    checks: &HashMap<i64, (bool, String)>,
    selected: Option<i64>,
) -> (r: Vec<RightRow>)
    ensures
        row_views(r@) == sorted_rows(bookmark_views(bms@), by, asc, checks@, selected),
{
    let ghost bv = bookmark_views(bms@);
    let mut keys: Vec<Vec<u8>> = Vec::new();
    let mut i: usize = 0;
    while i < bms.len()
        invariant
            bv == bookmark_views(bms@),
            i <= bms@.len(),
            key_views(keys@) == keys_of(bv.take(i as int), by),
        decreases bms@.len() - i,
    {
        let k = sort_key_of(&bms[i], by);
        let ghost before = key_views(keys@);
        let ghost kv = k@;
        assert(bv[i as int] == bms@[i as int]@);
        keys.push(k);
        assert(key_views(keys@) =~= before.push(kv));
        i += 1;
        assert(bv.take(i as int) =~= bv.take(i - 1).push(bv[i - 1]));
        assert(key_views(keys@) =~= keys_of(bv.take(i as int), by));
    }
    assert(bv.take(i as int) =~= bv);
    let order = stable_sort_indices(&keys, asc);
    proof {
        lemma_stable_order_len(key_views(keys@), keys@.len() as nat, asc);
    }
    let ghost os = stable_order(keys_of(bv, by), bv.len(), asc);
    let mut out: Vec<RightRow> = Vec::new();
    let mut j: usize = 0;
    while j < order.len()
        invariant
            bv == bookmark_views(bms@),
            usize_seq(order@) == os,
            os.len() == bv.len(),
            forall|t: int| 0 <= t < os.len() ==> 0 <= #[trigger] os[t] < bv.len(),
            j <= order@.len(),
            row_views(out@) == os.take(j as int).map_values(|i: int| bookmark_row(bv[i], checks@, selected)),
        decreases order@.len() - j,
    {
        let k = order[j];
        assert(os[j as int] == k as int);
        let row = make_bookmark_row(&bms[k], checks, selected);
        let ghost before = row_views(out@);
        let ghost rv = row@;
        assert(bv[k as int] == bms@[k as int]@);
        out.push(row);
        assert(row_views(out@) =~= before.push(rv));
        j += 1;
        assert(os.take(j as int) =~= os.take(j - 1).push(os[j - 1]));
        assert(row_views(out@) =~= os.take(j as int).map_values(|i: int| bookmark_row(bv[i], checks@, selected)));
    }
    assert(os.take(j as int) =~= os);
    out
}

/// The rows of the folders inside `folder`, in list order.
pub fn subfolder_rows_of(fs: &Vec<DbFolder>, folder: i64, counts: &HashMap<i64, i64>) -> (r: Vec<RightRow>)
    ensures
        row_views(r@) == subfolder_rows(fs@, folder, counts@),
{
    broadcast use vstd::std_specs::hash::group_hash_axioms;

    let mut out: Vec<RightRow> = Vec::new();
    let mut i: usize = 0;
    assert(fs@.take(0) =~= Seq::<DbFolder>::empty());
    while i < fs.len()
        invariant
            i <= fs@.len(),
            row_views(out@) == subfolder_rows(fs@.take(i as int), folder, counts@),
        decreases fs@.len() - i,
    {
        let f = &fs[i];
        assert(fs@.take(i + 1).drop_last() =~= fs@.take(i as int));
        if f.parent_id == Some(folder) {
            let count: i32 = match counts.get(&f.id) {
                Some(c) => #[verifier::truncate]
                (*c as i32),
                None => 0,
            };
            let ghost before = row_views(out@);
            out.push(
                RightRow {
                    id: #[verifier::truncate]
                    (f.id as i32),
                    kind: 0,
                    title: f.title.as_str().to_owned(),
                    url: String::new(),
                    note: String::new(),
                    check_status: String::new(),
                    count,
                    selected: false,
                },
            );
            assert(row_views(out@) =~= before.push(folder_row(*f, counts@)));
        }
        i += 1;
    }
    assert(fs@.take(i as int) =~= fs@);
    out
}

/// What the list shows: in search mode the sorted results; with a folder
/// open its sub-folders, then its sorted bookmarks; else nothing.
pub open spec fn panel_rows(
    searching: bool,
    folder: Option<i64>,
    fs: Seq<DbFolder>,
    counts: Map<i64, i64>,
    bms: Seq<BookmarkView>,
    by: SortBy,
    asc: bool,
    checks: Map<i64, (bool, String)>,
    selected: Option<i64>,
) -> Seq<RowView> {
    if searching {
        sorted_rows(bms, by, asc, checks, selected)
    } else {
        match folder {
            Some(f) => subfolder_rows(fs, f, counts) + sorted_rows(bms, by, asc, checks, selected),
            None => Seq::empty(),
        }
    }
}

/// The list for the window: `bms` are the search results in search mode,
/// else the open folder's bookmarks.
pub fn right_panel_rows(
    searching: bool,
    folder: Option<i64>,
    fs: &Vec<DbFolder>,
    counts: &HashMap<i64, i64>,
    bms: &Vec<DbBookmark>,
    by: SortBy,
    asc: bool,
    checks: &HashMap<i64, (bool, String)>,
    selected: Option<i64>,
) -> (r: Vec<RightRow>)
    ensures
        row_views(r@) == panel_rows(searching, folder, fs@, counts@, bookmark_views(bms@), by, asc, checks@, selected),
{
    if searching {
        return sorted_bookmark_rows(bms, by, asc, checks, selected);
    }
    match folder {
        Some(f) => {
            let mut rows = subfolder_rows_of(fs, f, counts);
            let ghost head = row_views(rows@);
            let mut tail = sorted_bookmark_rows(bms, by, asc, checks, selected);
            let ghost tv = row_views(tail@);
            rows.append(&mut tail);
            assert(row_views(rows@) =~= head + tv);
            rows
        },
        None => Vec::new(),
    }
}

/// The order the arrow keys walk the open folder's bookmarks: sorted
/// ascending, then turned round for a descending list (so equal keys come
/// reversed, unlike in the list itself).
pub open spec fn nav_order(bms: Seq<BookmarkView>, by: SortBy, asc: bool) -> Seq<i64> {
    let ids = stable_order(keys_of(bms, by), bms.len(), true).map_values(|i: int| bms[i].id);
    if asc {
        ids
    } else {
        ids.reverse()
    }
}

pub fn bookmark_ids_ordered(bms: &Vec<DbBookmark>, by: SortBy, asc: bool) -> (r: Vec<i64>)
    ensures
        r@ == nav_order(bookmark_views(bms@), by, asc),
{
    let ghost bv = bookmark_views(bms@);
    let mut keys: Vec<Vec<u8>> = Vec::new();
    let mut i: usize = 0;
    while i < bms.len()
        invariant
            bv == bookmark_views(bms@),
            i <= bms@.len(),
            key_views(keys@) == keys_of(bv.take(i as int), by),
        decreases bms@.len() - i,
    {
        let k = sort_key_of(&bms[i], by);
        let ghost before = key_views(keys@);
        let ghost kv = k@;
        assert(bv[i as int] == bms@[i as int]@);
        keys.push(k);
        assert(key_views(keys@) =~= before.push(kv));
        i += 1;
        assert(bv.take(i as int) =~= bv.take(i - 1).push(bv[i - 1]));
        assert(key_views(keys@) =~= keys_of(bv.take(i as int), by));
    }
    assert(bv.take(i as int) =~= bv);
    let order = stable_sort_indices(&keys, true);
    proof {
        lemma_stable_order_len(key_views(keys@), keys@.len() as nat, true);
    }
    let ghost os = stable_order(keys_of(bv, by), bv.len(), true);
    let ghost ids = os.map_values(|i: int| bv[i].id);
    let n = order.len();
    let mut out: Vec<i64> = Vec::new();
    let mut j: usize = 0;
    while j < n
        invariant
            bv == bookmark_views(bms@),
            usize_seq(order@) == os,
            n == order@.len(),
            os.len() == bv.len(),
            ids == os.map_values(|i: int| bv[i].id),
            forall|t: int| 0 <= t < os.len() ==> 0 <= #[trigger] os[t] < bv.len(),
            j <= n,
            out@ == (if asc {
                ids.take(j as int)
            } else {
                ids.reverse().take(j as int)
            }),
        decreases n - j,
    {
        let k = if asc {
            order[j]
        } else {
            order[n - 1 - j]
        };
        assert(k as int == os[if asc { j as int } else { n - 1 - j }]);
        assert(bv[k as int] == bms@[k as int]@);
        out.push(bms[k].id);
        j += 1;
        assert(out@ =~= (if asc {
            ids.take(j as int)
        } else {
            ids.reverse().take(j as int)
        }));
    }
    assert(ids.take(n as int) =~= ids);
    assert(ids.reverse().take(n as int) =~= ids.reverse());
    out
}

} // verus!
