//! Rules the album applies around its store: the folder path shown above a
//! folder, and moving an entry up or down among its siblings.

use vstd::prelude::*;
use vstd::string::StringExecFns;

verus! {

// ── Folder path ────────────────────────────────────────────────────────────

/// Where a walk up the folder tree stands: the titles met so far, from the
/// folder itself upwards, and the node to look up next.
pub struct CrumbWalk {
    pub titles: Vec<String>,
    pub next: Option<i64>,
}

/// A walk starting at `folder_id`.
pub fn crumb_start(folder_id: i64) -> (w: CrumbWalk)
    ensures
        w.titles@.len() == 0,
        w.next == Some(folder_id),
{
    CrumbWalk { titles: Vec::new(), next: Some(folder_id) }
}

/// One step of the walk, given what the store holds for `next`: its title
/// and parent, or nothing. The walk goes on to a parent with a positive id,
/// and ends at the root, at a missing node, or once it has more than ten
/// titles.
pub fn crumb_step(w: &mut CrumbWalk, found: Option<(String, Option<i64>)>)
    requires
        old(w).next is Some,
        old(w).titles@.len() <= 10,
    ensures
        match found {
            None => final(w).titles@ == old(w).titles@ && final(w).next is None,
            Some((t, p)) => {
                &&& final(w).titles@ == old(w).titles@.push(t)
                &&& final(w).next == (if final(w).titles@.len() <= 10 && (p matches Some(q) && q > 0) {
                    p
                } else {
                    None
                })
            },
        },
        final(w).titles@.len() <= 11,
        final(w).next is Some ==> final(w).titles@.len() <= 10,
{
    match found {
        None => {
            w.next = None;
        },
        Some((t, p)) => {
            w.titles.push(t);
            w.next = match p {
                Some(q) => if q > 0 && w.titles.len() <= 10 {
                    Some(q)
                } else {
                    None
                },
                None => None,
            };
        },
    }
}

pub open spec fn crumb_sep() -> Seq<char> {
    " › "@
}

/// The titles in reverse, joined by ` › `: from the topmost folder down.
pub open spec fn join_reversed(t: Seq<Seq<char>>) -> Seq<char>
    decreases t.len(),
{
    if t.len() == 0 {
        Seq::empty()
    } else if t.len() == 1 {
        t[0]
    } else {
        join_reversed(t.subrange(1, t.len() as int)) + crumb_sep() + t[0]
    }
}

pub open spec fn string_views(v: Seq<String>) -> Seq<Seq<char>> {
    v.map_values(|s: String| s@)
}

/// The path text of a finished walk.
pub fn crumb_text(titles: &Vec<String>) -> (r: String)
    ensures
        r@ == join_reversed(string_views(titles@)),
{
    let n = titles.len();
    let ghost ts = string_views(titles@);
    if n == 0 {
        return String::new();
    }
    let mut out = titles[n - 1].clone();
    assert(ts.subrange(n - 1, n as int) =~= seq![ts[n - 1]]);
    let mut i: usize = n - 1;
    while i > 0
        invariant
            ts == string_views(titles@),
            n == titles@.len(),
            i < n,
            out@ == join_reversed(ts.subrange(i as int, n as int)),
        decreases i,
    {
        i -= 1;
        out.append(" › ");
        out.append(titles[i].as_str());
        let ghost sub = ts.subrange(i as int, n as int);
        assert(sub.subrange(1, sub.len() as int) =~= ts.subrange(i + 1, n as int));
        assert(sub[0] == ts[i as int]);
    }
    assert(ts.subrange(0, n as int) =~= ts);
    out
}

// ── Moving among siblings ──────────────────────────────────────────────────

/// The index of the first `x` in `s`.
pub open spec fn first_index(s: Seq<i64>, x: i64) -> Option<int>
    decreases s.len(),
{
    if s.len() == 0 {
        None
    } else if s.last() == x && !s.drop_last().contains(x) {
        Some(s.len() - 1)
    } else if s.drop_last().contains(x) {
        first_index(s.drop_last(), x)
    } else {
        None
    }
}

pub proof fn lemma_first_index(s: Seq<i64>, x: i64)
    ensures
        match first_index(s, x) {
            Some(p) => 0 <= p < s.len() && s[p] == x && forall|j: int| 0 <= j < p ==> s[j] != x,
            None => !s.contains(x),
        },
    decreases s.len(),
{
    if s.len() > 0 {
        lemma_first_index(s.drop_last(), x);
        if !(s.last() == x) && !s.drop_last().contains(x) {
            assert forall|j: int| 0 <= j < s.len() implies s[j] != x by {
                if j < s.len() - 1 {
                    assert(s.drop_last()[j] == s[j]);
                }
            }
        }
        if s.drop_last().contains(x) {
            let p = first_index(s.drop_last(), x)->0;
            assert(s[p] == s.drop_last()[p]);
            assert forall|j: int| 0 <= j < p implies s[j] != x by {
                assert(s[j] == s.drop_last()[j]);
            }
        } else if s.last() == x {
            assert forall|j: int| 0 <= j < s.len() - 1 implies s[j] != x by {
                assert(s[j] == s.drop_last()[j]);
            }
        }
    }
}

/// The new order after moving `id` by `delta` places: its first place and
/// the target place swap; `None` where `id` is missing or the target lies
/// outside the list.
pub open spec fn reordered(s: Seq<i64>, id: i64, delta: int) -> Option<Seq<i64>> {
    match first_index(s, id) {
        None => None,
        Some(p) => {
            let q = p + delta;
            if q < 0 || q >= s.len() {
                None
            } else {
                Some(s.update(p, s[q]).update(q, s[p]))
            }
        },
    }
}

/// The sibling order after moving `id` by `delta`, or `None` for no change.
pub fn reorder(siblings: &Vec<i64>, id: i64, delta: i64) -> (r: Option<Vec<i64>>)
    ensures
        match reordered(siblings@, id, delta as int) {
            None => r is None,
            Some(t) => r matches Some(v) && v@ == t,
        },
{
    proof {
        lemma_first_index(siblings@, id);
    }
    let n = siblings.len();
    let mut pos: usize = 0;
    while pos < n && siblings[pos] != id
        invariant
            n == siblings@.len(),
            pos <= n,
            forall|j: int| 0 <= j < pos ==> siblings@[j] != id,
        decreases n - pos,
    {
        pos += 1;
    }
    if pos == n {
        assert(!siblings@.contains(id)) by {
            if siblings@.contains(id) {
                let j = choose|j: int| 0 <= j < siblings@.len() && siblings@[j] == id;
                assert(siblings@[j] != id);
            }
        }
        return None;
    }
    let new_pos: i128 = pos as i128 + delta as i128;
    if new_pos < 0 || new_pos >= n as i128 {
        return None;
    }
    let q = new_pos as usize;
    let mut v = siblings.clone();
    assert(v@ == siblings@);
    let a = v[pos];
    let b = v[q];
    v.set(pos, b);
    v.set(q, a);
    Some(v)
}

/// Moving an entry back by the opposite amount restores the order, where the
/// ids are distinct.
pub proof fn law_reorder_undo(s: Seq<i64>, id: i64, delta: int)
    requires
        s.no_duplicates(),
        reordered(s, id, delta) is Some,
    ensures
        reordered(reordered(s, id, delta)->0, id, -delta) == Some(s),
{
    lemma_first_index(s, id);
    let p = first_index(s, id)->0;
    let q = p + delta;
    let t = reordered(s, id, delta)->0;
    assert(t[q] == id);
    lemma_first_index(t, id);
    assert forall|j: int| 0 <= j < q implies t[j] != id by {
        if j == p {
            assert(t[j] == s[q]);
            if s[q] == id {
                assert(s[p] == s[q]);
            }
        } else {
            assert(t[j] == s[j]);
            if s[j] == id {
                assert(s[j] == s[p]);
            }
        }
    }
    assert(first_index(t, id) == Some(q)) by {
        let f = first_index(t, id);
        match f {
            Some(f0) => {
                if f0 < q {
                    assert(t[f0] != id);
                }
                if f0 > q {
                    assert(t[q] == id);
                }
            },
            None => {
                assert(t.contains(id)) by {
                    assert(t[q] == id);
                }
            },
        }
    }
    assert(t.update(q, t[p]).update(p, t[q]) =~= s);
}

/// Moving keeps the same entries: only two places trade contents.
pub proof fn law_reorder_permutes(s: Seq<i64>, id: i64, delta: int)
    requires
        reordered(s, id, delta) is Some,
    ensures
        reordered(s, id, delta)->0.len() == s.len(),
        reordered(s, id, delta)->0.to_multiset() == s.to_multiset(),
{
    lemma_first_index(s, id);
    let p = first_index(s, id)->0;
    let q = p + delta;
    let t = reordered(s, id, delta)->0;
    let u = s.update(p, s[q]);
    broadcast use {vstd::multiset::group_multiset_axioms, vstd::multiset::group_multiset_properties};

    vstd::seq_lib::to_multiset_update(s, p, s[q]);
    vstd::seq_lib::to_multiset_update(u, q, s[p]);
    vstd::seq_lib::to_multiset_contains(s, s[p]);
    vstd::seq_lib::to_multiset_contains(s, s[q]);
    assert(s.contains(s[p]));
    assert(s.contains(s[q]));
    if p == q {
        assert(t =~= s);
    } else {
        assert(u[q] == s[q]);
        assert(t.to_multiset() =~= s.to_multiset());
    }
}

/// Moving an entry: where `id` first stands at `p` and `p + delta` lies
/// inside the list, the move succeeds, `id` ends at `p + delta`, the entry
/// that stood there takes `p`, and every other place keeps its entry.
pub proof fn law_reorder_moves(s: Seq<i64>, id: i64, delta: int, p: int)
    requires
        0 <= p < s.len(),
        s[p] == id,
        forall|j: int| 0 <= j < p ==> s[j] != id,
        0 <= p + delta < s.len(),
    ensures
        reordered(s, id, delta) matches Some(t) && {
            &&& t.len() == s.len()
            &&& t[p + delta] == id
            &&& t[p] == s[p + delta]
            &&& forall|j: int| 0 <= j < s.len() && j != p && j != p + delta ==> t[j] == s[j]
        },
{
    lemma_first_index(s, id);
    assert(s.contains(id));
    let f = first_index(s, id)->0;
    if f < p {
        assert(s[f] != id);
    }
    if f > p {
        assert(s[p] == id);
    }
    assert(f == p);
}

/// Moving an entry fails exactly where it is missing or its target place
/// lies outside the list.
pub proof fn law_reorder_refuses(s: Seq<i64>, id: i64, delta: int)
    ensures
        !s.contains(id) ==> reordered(s, id, delta) is None,
        forall|p: int|
            0 <= p < s.len() && s[p] == id && (forall|j: int| 0 <= j < p ==> s[j] != id) && !(0 <= p + delta
                < s.len()) ==> #[trigger] s[p] == id && reordered(s, id, delta) is None,
{
    lemma_first_index(s, id);
    assert forall|p: int|
        0 <= p < s.len() && s[p] == id && (forall|j: int| 0 <= j < p ==> s[j] != id) && !(0 <= p + delta
            < s.len()) implies #[trigger] s[p] == id && reordered(s, id, delta) is None by {
        assert(s.contains(id));
        let f = first_index(s, id)->0;
        if f < p {
            assert(s[f] != id);
        }
        if f > p {
            assert(s[p] == id);
        }
    }
}

} // verus!
