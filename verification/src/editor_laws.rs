//! What the editor's operations keep, and how its song relates to saved files.
use vstd::prelude::*;
use crate::collection::{SongMetaV4, StaffV3, is_first_beyond, is_first_descent, lemma_well_formed_facts};
use crate::editor::{
    FullStaff, EditorSongFile, count_where, up_to_page, first_marked, starts_marked, pages_ascending, tops_ascending,
    on_page, before_page, is_nth_on_page,
    pages_below, without_page, shifted_up, is_first_after_page, first_after_page, insert_position,
    is_first_below, plain, positions_where, starts_piece, starts_section, loaded_staff, text_or_empty,
    lemma_count_where_step, lemma_count_where_bound,
};
use crate::keys::lemma_key_order_exists;

verus! {

/// Marking the first staff keeps the pages of all staves, and leaves the first
/// staff starting a piece and a section.
pub proof fn lemma_first_marked_keeps_pages<G>(old: Seq<FullStaff<G>>, new: Seq<FullStaff<G>>, n: int)
    requires
        first_marked(old, new),
    ensures
        starts_marked(new),
        pages_ascending(old) ==> pages_ascending(new),
        pages_below(old, n) ==> pages_below(new, n),
        tops_ascending(old) ==> tops_ascending(new),
{
    assert forall|i: int| 0 <= i < new.len() implies #[trigger] new[i].staff == old[i].staff by {
        if i > 0 {
            assert(new[i] == old[i]);
        }
    }
}

/// The page a staff lies on after page `p` was removed.
pub open spec fn shift_page(x: usize, p: usize) -> int {
    if x > p { x - 1 } else { x as int }
}

proof fn lemma_without_page_bound<G>(s: Seq<FullStaff<G>>, p: usize, b: usize)
    requires
        forall|j: int| 0 <= j < s.len() ==> #[trigger] s[j].staff.page.0 <= b,
    ensures
        forall|i: int| 0 <= i < without_page(s, p).len()
            ==> #[trigger] without_page(s, p)[i].staff.page.0 <= shift_page(b, p),
    decreases s.len(),
{
    if s.len() > 0 {
        let t = s.drop_last();
        assert forall|j: int| 0 <= j < t.len() implies #[trigger] t[j].staff.page.0 <= b by {
            assert(t[j] == s[j]);
        }
        lemma_without_page_bound(t, p, b);
        assert(s.last().staff.page.0 <= b) by {
            assert(s.last() == s[s.len() - 1]);
        }
    }
}

proof fn lemma_without_page_below<G>(s: Seq<FullStaff<G>>, p: usize, n: int)
    requires
        pages_below(s, n),
        p < n,
    ensures
        pages_below(without_page(s, p), n - 1),
    decreases s.len(),
{
    if s.len() > 0 {
        let t = s.drop_last();
        assert(pages_below(t, n)) by {
            assert forall|j: int| 0 <= j < t.len() implies #[trigger] t[j].staff.page.0 < n by {
                assert(t[j] == s[j]);
            }
        }
        lemma_without_page_below(t, p, n);
        assert(s.last() == s[s.len() - 1]);
    }
}

proof fn lemma_without_page_ascending<G>(s: Seq<FullStaff<G>>, p: usize)
    requires
        pages_ascending(s),
    ensures
        pages_ascending(without_page(s, p)),
    decreases s.len(),
{
    if s.len() > 0 {
        let t = s.drop_last();
        let last = s.last();
        assert(last == s[s.len() - 1]);
        assert(pages_ascending(t)) by {
            assert forall|i: int, j: int| 0 <= i <= j < t.len() implies
                #[trigger] t[i].staff.page.0 <= #[trigger] t[j].staff.page.0 by {
                assert(t[i] == s[i] && t[j] == s[j]);
            }
        }
        lemma_without_page_ascending(t, p);
        assert forall|j: int| 0 <= j < t.len() implies #[trigger] t[j].staff.page.0 <= last.staff.page.0 by {
            assert(t[j] == s[j]);
            assert(s[j].staff.page.0 <= s[s.len() - 1].staff.page.0);
        }
        lemma_without_page_bound(t, p, last.staff.page.0);
        let w = without_page(t, p);
        if last.staff.page.0 != p {
            let x = if last.staff.page.0 > p { shifted_up(last) } else { last };
            let r = w.push(x);
            assert(r == without_page(s, p));
            assert forall|i: int, j: int| 0 <= i <= j < r.len() implies
                #[trigger] r[i].staff.page.0 <= #[trigger] r[j].staff.page.0 by {
                if j == r.len() - 1 {
                    if i < j {
                        assert(r[i] == w[i]);
                    }
                } else {
                    assert(r[i] == w[i] && r[j] == w[j]);
                }
            }
        }
    }
}

/// Removing page `p` from staves ordered by page on `n` pages leaves them
/// ordered by page on `n - 1` pages.
pub proof fn lemma_without_page_consistent<G>(s: Seq<FullStaff<G>>, p: usize, n: int)
    requires
        pages_ascending(s),
        pages_below(s, n),
        p < n,
    ensures
        pages_ascending(without_page(s, p)),
        pages_below(without_page(s, p), n - 1),
{
    lemma_without_page_ascending(s, p);
    lemma_without_page_below(s, p, n);
}

/// Staves inserted where the later pages begin keep the list ordered by page.
pub proof fn lemma_add_staves_consistent<G>(s: Seq<FullStaff<G>>, p: usize, added: Seq<FullStaff<G>>, n: int)
    requires
        pages_ascending(s),
        pages_below(s, n),
        p < n,
        forall|i: int| 0 <= i < added.len() ==> (#[trigger] added[i]).staff.page.0 == p,
    ensures
        pages_ascending(s.take(first_after_page(s, p)) + added + s.skip(first_after_page(s, p))),
        pages_below(s.take(first_after_page(s, p)) + added + s.skip(first_after_page(s, p)), n),
{
    let k = first_after_page(s, p);
    assert(exists|k: int| is_first_after_page(s, p, k)) by {
        lemma_first_after_page_exists(s, p);
    }
    assert(is_first_after_page(s, p, k));
    let r = s.take(k) + added + s.skip(k);
    let a = added.len();
    assert forall|i: int| 0 <= i < r.len() implies #[trigger] r[i].staff.page.0 < n by {
        if i < k {
            assert(r[i] == s[i]);
        } else if i < k + a {
            assert(r[i] == added[i - k]);
        } else {
            assert(r[i] == s[i - a]);
        }
    }
    assert forall|i: int, j: int| 0 <= i <= j < r.len() implies
        #[trigger] r[i].staff.page.0 <= #[trigger] r[j].staff.page.0 by {
        let pi = if i < k { s[i].staff.page.0 as int } else if i < k + a { p as int } else { s[i - a].staff.page.0 as int };
        let pj = if j < k { s[j].staff.page.0 as int } else if j < k + a { p as int } else { s[j - a].staff.page.0 as int };
        if i < k {
            assert(r[i] == s[i]);
        } else if i < k + a {
            assert(r[i] == added[i - k]);
        } else {
            assert(r[i] == s[i - a]);
        }
        if j < k {
            assert(r[j] == s[j]);
        } else if j < k + a {
            assert(r[j] == added[j - k]);
        } else {
            assert(r[j] == s[j - a]);
        }
        if j >= k + a {
            assert(s[k].staff.page.0 > p);
            assert(s[k].staff.page.0 <= s[j - a].staff.page.0);
        }
        assert(pi <= pj);
    }
}

/// The place where the later pages begin always exists.
pub proof fn lemma_first_after_page_exists<G>(s: Seq<FullStaff<G>>, p: usize)
    ensures
        exists|k: int| is_first_after_page(s, p, k),
    decreases s.len(),
{
    if s.len() == 0 {
        assert(is_first_after_page(s, p, 0));
    } else {
        let t = s.drop_last();
        lemma_first_after_page_exists(t, p);
        let k = choose|k: int| is_first_after_page(t, p, k);
        assert forall|j: int| 0 <= j < k implies #[trigger] s[j].staff.page.0 <= p by {
            assert(t[j] == s[j]);
        }
        if k < t.len() {
            assert(t[k] == s[k]);
            assert(is_first_after_page(s, p, k));
        } else if s.last().staff.page.0 > p {
            assert(s.last() == s[k]);
            assert(is_first_after_page(s, p, k));
        } else {
            assert forall|j: int| 0 <= j < s.len() implies #[trigger] s[j].staff.page.0 <= p by {
                if j < t.len() {
                    assert(t[j] == s[j]);
                }
            }
            assert(is_first_after_page(s, p, s.len() as int));
        }
    }
}

/// In staves ordered by page, those up to page `p` come first.
proof fn lemma_count_up_to_page<G>(s: Seq<FullStaff<G>>, p: usize)
    requires
        pages_ascending(s),
    ensures
        forall|j: int| 0 <= j < count_where(s, up_to_page::<G>(p)) ==> #[trigger] s[j].staff.page.0 <= p,
        forall|j: int| count_where(s, up_to_page::<G>(p)) <= j < s.len() ==> #[trigger] s[j].staff.page.0 > p,
        count_where(s, up_to_page::<G>(p)) <= s.len(),
{
    lemma_first_after_page_exists(s, p);
    let k = choose|k: int| is_first_after_page(s, p, k);
    let pred = up_to_page::<G>(p);
    assert forall|i: int| 0 <= i <= s.len() implies count_where(s.take(i), pred) == if i <= k { i } else { k } by {
        lemma_count_prefix(s, p, k, i);
    }
    assert(s.take(s.len() as int) =~= s);
    assert forall|j: int| k <= j < s.len() implies #[trigger] s[j].staff.page.0 > p by {
        assert(s[k].staff.page.0 <= s[j].staff.page.0);
    }
}

proof fn lemma_count_prefix<G>(s: Seq<FullStaff<G>>, p: usize, k: int, i: int)
    requires
        pages_ascending(s),
        is_first_after_page(s, p, k),
        0 <= i <= s.len(),
    ensures
        count_where(s.take(i), up_to_page::<G>(p)) == if i <= k { i } else { k },
    decreases i,
{
    if i > 0 {
        lemma_count_prefix(s, p, k, i - 1);
        lemma_count_where_step(s, up_to_page::<G>(p), i - 1);
        if i - 1 >= k {
            assert(s[k].staff.page.0 <= s[i - 1].staff.page.0);
        }
    } else {
        assert(s.take(0) =~= Seq::<FullStaff<G>>::empty());
    }
}

/// Inserting a staff of page `p` where `insert_position` puts it keeps the list
/// ordered by page.
pub proof fn lemma_insert_consistent<G>(s: Seq<FullStaff<G>>, x: FullStaff<G>, n: int)
    requires
        pages_ascending(s),
        pages_below(s, n),
        x.staff.page.0 < n,
    ensures
        0 <= insert_position(s, x.staff.page.0, x.staff.top).1 <= s.len(),
        pages_ascending(s.insert(insert_position(s, x.staff.page.0, x.staff.top).1, x)),
        pages_below(s.insert(insert_position(s, x.staff.page.0, x.staff.top).1, x), n),
{
    let p = x.staff.page.0;
    let top = x.staff.top;
    let g = insert_position(s, p, top).1;
    if exists|g: int| is_first_below(s, p, top, g) {
        let c = choose|g: int| is_first_below(s, p, top, g);
        assert(g == c);
        assert forall|j: int| 0 <= j < g implies #[trigger] s[j].staff.page.0 <= p by {
            assert(s[j].staff.page.0 <= s[g].staff.page.0);
        }
        assert forall|j: int| g <= j < s.len() implies #[trigger] s[j].staff.page.0 >= p by {
            assert(s[g].staff.page.0 <= s[j].staff.page.0);
        }
        lemma_insert_between(s, x, g, n);
    } else {
        lemma_count_up_to_page(s, p);
        lemma_insert_between(s, x, g, n);
    }
}

proof fn lemma_insert_between<G>(s: Seq<FullStaff<G>>, x: FullStaff<G>, g: int, n: int)
    requires
        pages_ascending(s),
        pages_below(s, n),
        x.staff.page.0 < n,
        0 <= g <= s.len(),
        forall|j: int| 0 <= j < g ==> #[trigger] s[j].staff.page.0 <= x.staff.page.0,
        forall|j: int| g <= j < s.len() ==> #[trigger] s[j].staff.page.0 >= x.staff.page.0,
    ensures
        pages_ascending(s.insert(g, x)),
        pages_below(s.insert(g, x), n),
{
    let r = s.insert(g, x);
    assert forall|i: int| 0 <= i < r.len() implies #[trigger] r[i].staff.page.0 < n by {
        if i < g {
            assert(r[i] == s[i]);
        } else if i > g {
            assert(r[i] == s[i - 1]);
        }
    }
    assert forall|i: int, j: int| 0 <= i <= j < r.len() implies
        #[trigger] r[i].staff.page.0 <= #[trigger] r[j].staff.page.0 by {
        if i < g {
            assert(r[i] == s[i]);
        } else if i > g {
            assert(r[i] == s[i - 1]);
        }
        if j < g {
            assert(r[j] == s[j]);
        } else if j > g {
            assert(r[j] == s[j - 1]);
        }
        if i < g && j > g {
            assert(s[i].staff.page.0 <= s[j - 1].staff.page.0);
        }
        if i > g {
            assert(s[i - 1].staff.page.0 <= s[j - 1].staff.page.0);
        }
    }
}

/// Removing a staff keeps the list ordered by page.
pub proof fn lemma_remove_consistent<G>(s: Seq<FullStaff<G>>, g: int, n: int)
    requires
        pages_ascending(s),
        pages_below(s, n),
        0 <= g < s.len(),
    ensures
        pages_ascending(s.remove(g)),
        pages_below(s.remove(g), n),
{
    let r = s.remove(g);
    assert forall|i: int| 0 <= i < r.len() implies #[trigger] r[i].staff.page.0 < n by {
        if i < g {
            assert(r[i] == s[i]);
        } else {
            assert(r[i] == s[i + 1]);
        }
    }
    assert forall|i: int, j: int| 0 <= i <= j < r.len() implies
        #[trigger] r[i].staff.page.0 <= #[trigger] r[j].staff.page.0 by {
        if i < g {
            assert(r[i] == s[i]);
        } else {
            assert(r[i] == s[i + 1]);
        }
        if j < g {
            assert(r[j] == s[j]);
        } else {
            assert(r[j] == s[j + 1]);
        }
    }
}


/// Removing page `p` keeps each page ordered from top to bottom.
pub proof fn lemma_without_page_tops<G>(s: Seq<FullStaff<G>>, p: usize)
    requires
        tops_ascending(s),
    ensures
        tops_ascending(without_page(s, p)),
    decreases s.len(),
{
    if s.len() > 0 {
        let t = s.drop_last();
        let last = s.last();
        assert(last == s[s.len() - 1]);
        assert(tops_ascending(t)) by {
            assert forall|i: int, j: int| 0 <= i <= j < t.len() && #[trigger] t[i].staff.page.0
                == #[trigger] t[j].staff.page.0 implies t[i].staff.top <= t[j].staff.top by {
                assert(t[i] == s[i] && t[j] == s[j]);
            }
        }
        lemma_without_page_tops(t, p);
        let w = without_page(t, p);
        if last.staff.page.0 != p {
            assert forall|j: int| 0 <= j < t.len() && #[trigger] t[j].staff.page.0 == last.staff.page.0 implies
                t[j].staff.top <= last.staff.top by {
                assert(t[j] == s[j]);
                assert(s[j].staff.page.0 == s[s.len() - 1].staff.page.0);
            }
            lemma_without_page_top_bound(t, p, last.staff.page.0, last.staff.top);
            let x = if last.staff.page.0 > p { shifted_up(last) } else { last };
            let r = w.push(x);
            assert(r == without_page(s, p));
            assert forall|i: int, j: int| 0 <= i <= j < r.len() && #[trigger] r[i].staff.page.0
                == #[trigger] r[j].staff.page.0 implies r[i].staff.top <= r[j].staff.top by {
                if j == r.len() - 1 {
                    if i < j {
                        assert(r[i] == w[i]);
                        assert(w[i].staff.page.0 == shift_page(last.staff.page.0, p));
                    }
                } else {
                    assert(r[i] == w[i] && r[j] == w[j]);
                }
            }
        }
    }
}

/// After removing page `p`, the staves that were on page `q` (not `p`) still lie no lower than
/// `top` if they did before.
proof fn lemma_without_page_top_bound<G>(s: Seq<FullStaff<G>>, p: usize, q: usize, top: u64)
    requires
        q != p,
        forall|j: int| 0 <= j < s.len() && #[trigger] s[j].staff.page.0 == q ==> s[j].staff.top <= top,
    ensures
        forall|i: int| 0 <= i < without_page(s, p).len() && #[trigger] without_page(s, p)[i].staff.page.0
            == shift_page(q, p) ==> without_page(s, p)[i].staff.top <= top,
    decreases s.len(),
{
    if s.len() > 0 {
        let t = s.drop_last();
        assert forall|j: int| 0 <= j < t.len() && #[trigger] t[j].staff.page.0 == q implies t[j].staff.top
            <= top by {
            assert(t[j] == s[j]);
        }
        lemma_without_page_top_bound(t, p, q, top);
        assert(s.last() == s[s.len() - 1]);
    }
}

/// Staves ordered from top to bottom, lying no higher than those already on page `p`, added
/// where the later pages begin keep each page ordered from top to bottom.
pub proof fn lemma_add_staves_tops<G>(s: Seq<FullStaff<G>>, p: usize, added: Seq<FullStaff<G>>)
    requires
        pages_ascending(s),
        tops_ascending(s),
        forall|i: int| 0 <= i < added.len() ==> (#[trigger] added[i]).staff.page.0 == p,
        forall|i: int, j: int| 0 <= i <= j < added.len() ==> #[trigger] added[i].staff.top <= #[trigger] added[j].staff.top,
        forall|i: int, j: int|
            0 <= i < s.len() && 0 <= j < added.len() && #[trigger] s[i].staff.page.0 == p ==> s[i].staff.top
                <= #[trigger] added[j].staff.top,
    ensures
        tops_ascending(s.take(first_after_page(s, p)) + added + s.skip(first_after_page(s, p))),
{
    let k = first_after_page(s, p);
    assert(exists|k: int| is_first_after_page(s, p, k)) by {
        lemma_first_after_page_exists(s, p);
    }
    assert(is_first_after_page(s, p, k));
    let r = s.take(k) + added + s.skip(k);
    let a = added.len();
    assert forall|i: int, j: int| 0 <= i <= j < r.len() && #[trigger] r[i].staff.page.0
        == #[trigger] r[j].staff.page.0 implies r[i].staff.top <= r[j].staff.top by {
        if i < k {
            assert(r[i] == s[i]);
        } else if i < k + a {
            assert(r[i] == added[i - k]);
        } else {
            assert(r[i] == s[i - a]);
        }
        if j < k {
            assert(r[j] == s[j]);
        } else if j < k + a {
            assert(r[j] == added[j - k]);
        } else {
            assert(r[j] == s[j - a]);
            assert(s[k].staff.page.0 <= s[j - a].staff.page.0);
        }
        if i < k && j >= k + a {
            assert(s[i].staff.page.0 == s[j - a].staff.page.0);
        }
        if k <= i < k + a && j >= k + a {
            assert(s[j - a].staff.page.0 > p);
        }
    }
}

/// `g` is the first staff of page `p` that lies lower than `top`, if some staff does.
proof fn lemma_first_below_exists<G>(s: Seq<FullStaff<G>>, p: usize, top: u64, i: int)
    requires
        0 <= i < s.len(),
        s[i].staff.page.0 == p,
        s[i].staff.top > top,
    ensures
        exists|g: int| is_first_below(s, p, top, g),
    decreases i,
{
    if exists|j: int| 0 <= j < i && #[trigger] s[j].staff.page.0 == p && s[j].staff.top > top {
        let j = choose|j: int| 0 <= j < i && #[trigger] s[j].staff.page.0 == p && s[j].staff.top > top;
        lemma_first_below_exists(s, p, top, j);
    } else {
        assert(is_first_below(s, p, top, i));
    }
}

/// Inserting a staff where `insert_position` puts it keeps each page ordered from top to
/// bottom.
pub proof fn lemma_insert_tops<G>(s: Seq<FullStaff<G>>, x: FullStaff<G>)
    requires
        pages_ascending(s),
        tops_ascending(s),
    ensures
        tops_ascending(s.insert(insert_position(s, x.staff.page.0, x.staff.top).1, x)),
{
    let p = x.staff.page.0;
    let top = x.staff.top;
    let g = insert_position(s, p, top).1;
    if exists|c: int| is_first_below(s, p, top, c) {
        let c = choose|c: int| is_first_below(s, p, top, c);
        assert(g == c);
        assert forall|j: int| g <= j < s.len() && #[trigger] s[j].staff.page.0 == p implies s[j].staff.top
            >= top by {
            assert(s[g].staff.page.0 == s[j].staff.page.0);
        }
        lemma_insert_between_tops(s, x, g);
    } else {
        lemma_count_up_to_page(s, p);
        assert forall|j: int| 0 <= j < g && #[trigger] s[j].staff.page.0 == p implies s[j].staff.top
            <= top by {
            if s[j].staff.top > top {
                lemma_first_below_exists(s, p, top, j);
            }
        }
        lemma_insert_between_tops(s, x, g);
    }
}

proof fn lemma_insert_between_tops<G>(s: Seq<FullStaff<G>>, x: FullStaff<G>, g: int)
    requires
        tops_ascending(s),
        0 <= g <= s.len(),
        forall|j: int| 0 <= j < g && #[trigger] s[j].staff.page.0 == x.staff.page.0 ==> s[j].staff.top
            <= x.staff.top,
        forall|j: int| g <= j < s.len() && #[trigger] s[j].staff.page.0 == x.staff.page.0 ==> s[j].staff.top
            >= x.staff.top,
    ensures
        tops_ascending(s.insert(g, x)),
{
    let r = s.insert(g, x);
    assert forall|i: int, j: int| 0 <= i <= j < r.len() && #[trigger] r[i].staff.page.0
        == #[trigger] r[j].staff.page.0 implies r[i].staff.top <= r[j].staff.top by {
        if i < g {
            assert(r[i] == s[i]);
        } else if i > g {
            assert(r[i] == s[i - 1]);
        }
        if j < g {
            assert(r[j] == s[j]);
        } else if j > g {
            assert(r[j] == s[j - 1]);
        }
        if i < g && j > g {
            assert(s[i].staff.page.0 == s[j - 1].staff.page.0);
        }
        if i > g {
            assert(s[i - 1].staff.page.0 == s[j - 1].staff.page.0);
        }
    }
}

/// Removing a staff keeps each page ordered from top to bottom.
pub proof fn lemma_remove_tops<G>(s: Seq<FullStaff<G>>, g: int)
    requires
        tops_ascending(s),
        0 <= g < s.len(),
    ensures
        tops_ascending(s.remove(g)),
{
    let r = s.remove(g);
    assert forall|i: int, j: int| 0 <= i <= j < r.len() && #[trigger] r[i].staff.page.0
        == #[trigger] r[j].staff.page.0 implies r[i].staff.top <= r[j].staff.top by {
        if i < g {
            assert(r[i] == s[i]);
        } else {
            assert(r[i] == s[i + 1]);
        }
        if j < g {
            assert(r[j] == s[j]);
        } else {
            assert(r[j] == s[j + 1]);
        }
    }
}

/// The staff lies on page `p`, no lower than `top`.
pub open spec fn on_page_up_to_top<G>(p: usize, top: u64) -> spec_fn(FullStaff<G>) -> bool {
    |f: FullStaff<G>| f.staff.page.0 == p && f.staff.top <= top
}

proof fn lemma_count_where_agree<A>(s: Seq<A>, a: spec_fn(A) -> bool, b: spec_fn(A) -> bool)
    requires
        forall|i: int| #![trigger s[i]] 0 <= i < s.len() ==> a(s[i]) == b(s[i]),
    ensures
        count_where(s, a) == count_where(s, b),
    decreases s.len(),
{
    if s.len() > 0 {
        let t = s.drop_last();
        assert forall|i: int| #![trigger t[i]] 0 <= i < t.len() implies a(t[i]) == b(t[i]) by {
            assert(t[i] == s[i]);
        }
        lemma_count_where_agree(t, a, b);
        assert(s.last() == s[s.len() - 1]);
    }
}

proof fn lemma_count_where_tail_none<A>(s: Seq<A>, a: spec_fn(A) -> bool, g: int)
    requires
        0 <= g <= s.len(),
        forall|i: int| #![trigger s[i]] g <= i < s.len() ==> !a(s[i]),
    ensures
        count_where(s, a) == count_where(s.take(g), a),
    decreases s.len(),
{
    if s.len() == g {
        assert(s.take(g) =~= s);
    } else {
        let t = s.drop_last();
        assert forall|i: int| #![trigger t[i]] g <= i < t.len() implies !a(t[i]) by {
            assert(t[i] == s[i]);
        }
        lemma_count_where_tail_none(t, a, g);
        assert(t.take(g) =~= s.take(g));
        assert(s.last() == s[s.len() - 1]);
    }
}

proof fn lemma_count_on_page_same_staves<G>(a: Seq<FullStaff<G>>, b: Seq<FullStaff<G>>, p: usize)
    requires
        a.len() == b.len(),
        forall|i: int| 0 <= i < a.len() ==> #[trigger] a[i].staff == b[i].staff,
    ensures
        count_where(a, on_page::<G>(p)) == count_where(b, on_page::<G>(p)),
    decreases a.len(),
{
    if a.len() > 0 {
        let (ta, tb) = (a.drop_last(), b.drop_last());
        assert forall|i: int| 0 <= i < ta.len() implies #[trigger] ta[i].staff == tb[i].staff by {
            assert(ta[i] == a[i] && tb[i] == b[i]);
        }
        lemma_count_on_page_same_staves(ta, tb, p);
        assert(a[a.len() - 1].staff == b[b.len() - 1].staff);
    }
}

/// Adding a staff to a page keeps the staves ordered by page and on each page from top to
/// bottom; the staff comes right after the staves of its page that lie no lower, so its
/// position on the page is their number, and the staff at that position of the page is the new
/// one.
pub proof fn lemma_add_staff_position<G>(s: Seq<FullStaff<G>>, staff: StaffV3<G>, new: Seq<FullStaff<G>>)
    requires
        pages_ascending(s),
        tops_ascending(s),
        first_marked(s.insert(insert_position(s, staff.page.0, staff.top).1, plain(staff)), new),
    ensures
        ({
            let pos = insert_position(s, staff.page.0, staff.top);
            &&& new.len() == s.len() + 1
            &&& pages_ascending(new)
            &&& tops_ascending(new)
            &&& pos.0 == count_where(s, on_page_up_to_top::<G>(staff.page.0, staff.top))
            &&& is_nth_on_page(new, staff.page.0, pos.0, pos.1)
            &&& new[pos.1].staff == staff
        }),
{
    let p = staff.page.0;
    let top = staff.top;
    let x = plain(staff);
    let pos = insert_position(s, p, top);
    let g = pos.1;
    let n = usize::MAX + 1;
    assert(pages_below(s, n));
    lemma_insert_consistent(s, x, n);
    lemma_insert_tops(s, x);
    let ins = s.insert(g, x);
    lemma_first_marked_keeps_pages(ins, new, n);
    assert forall|i: int| 0 <= i < new.len() implies #[trigger] new[i].staff == ins[i].staff by {
        if i > 0 {
            assert(new[i] == ins[i]);
        }
    }
    assert(new[g].staff == staff);
    let up = on_page_up_to_top::<G>(p, top);
    let on = on_page::<G>(p);
    if exists|c: int| is_first_below(s, p, top, c) {
        let c = choose|c: int| is_first_below(s, p, top, c);
        assert(g == c);
        assert forall|j: int| #![trigger s[j]] g <= j < s.len() implies !up(s[j]) by {
            if s[j].staff.page.0 == p {
                assert(s[g].staff.page.0 == s[j].staff.page.0);
            }
        }
        lemma_count_where_tail_none(s, up, g);
        let pre = s.take(g);
        assert forall|i: int| #![trigger pre[i]] 0 <= i < pre.len() implies on(pre[i]) == up(pre[i]) by {
            assert(pre[i] == s[i]);
            assert(!(s[i].staff.page.0 == p && s[i].staff.top > top));
        }
        lemma_count_where_agree(pre, on, up);
    } else {
        lemma_count_up_to_page(s, p);
        assert forall|i: int| #![trigger s[i]] 0 <= i < s.len() implies on(s[i]) == up(s[i]) by {
            if s[i].staff.page.0 == p && s[i].staff.top > top {
                lemma_first_below_exists(s, p, top, i);
            }
        }
        lemma_count_where_agree(s, on, up);
        assert forall|j: int| #![trigger s[j]] g <= j < s.len() implies !on(s[j]) by {
            assert(s[j].staff.page.0 > p);
        }
        lemma_count_where_tail_none(s, on, g);
    }
    assert forall|i: int| 0 <= i < g implies #[trigger] new.take(g)[i].staff == s.take(g)[i].staff by {
        assert(new.take(g)[i] == new[i]);
        assert(ins[i] == s[i]);
    }
    lemma_count_on_page_same_staves(new.take(g), s.take(g), p);
}

proof fn lemma_filter_none<A>(s: Seq<A>, pred: spec_fn(A) -> bool)
    requires
        forall|i: int| #![trigger s[i]] 0 <= i < s.len() ==> !pred(s[i]),
    ensures
        s.filter(pred) == Seq::<A>::empty(),
    decreases s.len(),
{
    reveal(Seq::filter);
    if s.len() > 0 {
        let t = s.drop_last();
        assert forall|i: int| #![trigger t[i]] 0 <= i < t.len() implies !pred(t[i]) by {
            assert(t[i] == s[i]);
        }
        lemma_filter_none(t, pred);
        assert(s.last() == s[s.len() - 1]);
    } else {
        assert(s =~= Seq::<A>::empty());
    }
}

proof fn lemma_filter_all<A>(s: Seq<A>, pred: spec_fn(A) -> bool)
    requires
        forall|i: int| #![trigger s[i]] 0 <= i < s.len() ==> pred(s[i]),
    ensures
        s.filter(pred) == s,
    decreases s.len(),
{
    reveal(Seq::filter);
    if s.len() > 0 {
        let t = s.drop_last();
        assert forall|i: int| #![trigger t[i]] 0 <= i < t.len() implies pred(t[i]) by {
            assert(t[i] == s[i]);
        }
        lemma_filter_all(t, pred);
        assert(s.last() == s[s.len() - 1]);
        assert(t.push(s.last()) =~= s);
    }
}

/// In staves ordered by page, the staves of page `p` stand together, right after the staves of
/// the earlier pages: the `k`-th staff of the page is the staff at `count_staves_before` plus
/// `k`.
pub proof fn lemma_page_block<G>(s: Seq<FullStaff<G>>, p: usize)
    requires
        pages_ascending(s),
    ensures
        ({
            let b = count_where(s, before_page::<G>(p));
            let block = s.filter(on_page::<G>(p));
            &&& b + block.len() <= s.len()
            &&& forall|k: int| 0 <= k < block.len() ==> #[trigger] block[k] == s[b + k]
        }),
{
    let before = before_page::<G>(p);
    let on = on_page::<G>(p);
    let b = count_where(s, before) as int;
    let e = count_where(s, up_to_page::<G>(p)) as int;
    lemma_count_up_to_page(s, p);
    if p == 0 {
        lemma_count_where_tail_none(s, before, 0);
        assert(s.take(0) =~= Seq::<FullStaff<G>>::empty());
        assert(b == 0);
    } else {
        let q = (p - 1) as usize;
        lemma_count_where_agree(s, before, up_to_page::<G>(q));
        lemma_count_up_to_page(s, q);
    }
    assert(forall|j: int| 0 <= j < b ==> #[trigger] s[j].staff.page.0 < p);
    assert(forall|j: int| b <= j < s.len() ==> #[trigger] s[j].staff.page.0 >= p);
    assert(b <= e) by {
        if e < b {
            assert(s[e].staff.page.0 > p);
        }
    }
    let (first, mid, last) = (s.take(b), s.subrange(b, e), s.skip(e));
    assert(s =~= first + mid + last);
    Seq::filter_distributes_over_add(first + mid, last, on);
    Seq::filter_distributes_over_add(first, mid, on);
    assert forall|i: int| #![trigger first[i]] 0 <= i < first.len() implies !on(first[i]) by {
        assert(first[i] == s[i]);
    }
    lemma_filter_none(first, on);
    assert forall|i: int| #![trigger mid[i]] 0 <= i < mid.len() implies on(mid[i]) by {
        assert(mid[i] == s[b + i]);
    }
    lemma_filter_all(mid, on);
    assert forall|i: int| #![trigger last[i]] 0 <= i < last.len() implies !on(last[i]) by {
        assert(last[i] == s[e + i]);
    }
    lemma_filter_none(last, on);
    assert(s.filter(on) =~= mid);
}

proof fn lemma_count_where_is_filter_len<A>(s: Seq<A>, pred: spec_fn(A) -> bool)
    ensures
        count_where(s, pred) == s.filter(pred).len(),
    decreases s.len(),
{
    reveal(Seq::filter);
    if s.len() > 0 {
        lemma_count_where_is_filter_len(s.drop_last(), pred);
    }
}

/// The `n`-th staff of page `p` in the list is the `n`-th staff of the page's own list.
proof fn lemma_nth_on_page_in_filter<G>(s: Seq<FullStaff<G>>, p: usize, n: int, g: int)
    requires
        is_nth_on_page(s, p, n, g),
    ensures
        0 <= n < s.filter(on_page::<G>(p)).len(),
        s.filter(on_page::<G>(p))[n] == s[g],
{
    let on = on_page::<G>(p);
    let (a, b, c) = (s.take(g), seq![s[g]], s.skip(g + 1));
    assert(s =~= a + b + c);
    Seq::filter_distributes_over_add(a + b, c, on);
    Seq::filter_distributes_over_add(a, b, on);
    assert forall|i: int| #![trigger b[i]] 0 <= i < b.len() implies on(b[i]) by {}
    lemma_filter_all(b, on);
    lemma_count_where_is_filter_len(a, on);
    let fa = a.filter(on);
    assert(s.filter(on) == fa + b + c.filter(on));
    assert((fa + b + c.filter(on))[n] == b[0]);
}

/// What `add_staff` does to staves ordered by page and on each page from top to bottom, as
/// `get_staves` and `get_page` show it: the staff is inserted into the list, which stays
/// ordered; the position it returns is the number of staves of its page that lie no lower
/// than it; and the staff at that position of its page is the new one.
pub proof fn lemma_add_staff_law<P, G: Copy>(
    before: EditorSongFile<P, G>,
    after: EditorSongFile<P, G>,
    staff: StaffV3<G>,
    r: usize,
)
    requires
        pages_ascending(before.staff_list()),
        tops_ascending(before.staff_list()),
        ({
            let pos = insert_position(before.staff_list(), staff.page.0, staff.top);
            &&& r == pos.0
            &&& first_marked(before.staff_list().insert(pos.1, plain(staff)), after.staff_list())
        }),
    ensures
        ({
            let pos = insert_position(before.staff_list(), staff.page.0, staff.top);
            let on_its_page = after.staff_list().filter(on_page::<G>(staff.page.0));
            &&& after.plain_staves() == before.plain_staves().insert(pos.1, staff)
            &&& pages_ascending(after.staff_list())
            &&& tops_ascending(after.staff_list())
            &&& r == count_where(before.staff_list(), on_page_up_to_top::<G>(staff.page.0, staff.top))
            &&& r < on_its_page.len()
            &&& on_its_page[r as int].staff == staff
        }),
{
    let s = before.staff_list();
    let new = after.staff_list();
    let pos = insert_position(s, staff.page.0, staff.top);
    lemma_add_staff_position(s, staff, new);
    let ins = s.insert(pos.1, plain(staff));
    assert forall|i: int| 0 <= i < new.len() implies #[trigger] new[i].staff == ins[i].staff by {
        if i > 0 {
            assert(new[i] == ins[i]);
        }
    }
    assert(after.plain_staves() =~= before.plain_staves().insert(pos.1, staff)) by {
        assert forall|i: int| 0 <= i < new.len() implies after.plain_staves()[i]
            == before.plain_staves().insert(pos.1, staff)[i] by {
            assert(after.plain_staves()[i] == new[i].staff);
            if i < pos.1 {
                assert(ins[i] == s[i]);
            } else if i > pos.1 {
                assert(ins[i] == s[i - 1]);
            }
        }
    }
    lemma_nth_on_page_in_filter(new, staff.page.0, pos.0, pos.1);
}

/// `count_staves_before` and `get_page` agree on staves ordered by page: the staves of page `p`
/// that `get_page` lists stand in `get_staves` right after the first `count_staves_before(p)`
/// staves, one after the other.
pub proof fn lemma_page_follows_count<P, G: Copy>(e: EditorSongFile<P, G>, p: usize)
    requires
        pages_ascending(e.staff_list()),
    ensures
        ({
            let b = count_where(e.staff_list(), before_page::<G>(p));
            let page = e.staff_list().filter(on_page::<G>(p)).map_values(|f: FullStaff<G>| f.staff);
            &&& b + page.len() <= e.plain_staves().len()
            &&& forall|k: int| 0 <= k < page.len() ==> #[trigger] page[k] == e.plain_staves()[b + k]
        }),
{
    lemma_page_block(e.staff_list(), p);
}

/// What the editor saves passes the loader's checks: a consistent editor with at
/// least one staff writes well-formed metadata.
pub proof fn lemma_saved_song_is_valid<P, G: Copy>(e: EditorSongFile<P, G>, meta: SongMetaV4<G>)
    requires
        e.is_consistent(),
        e.staff_list().len() > 0,
        e.saved_as(meta),
    ensures
        meta.well_formed(),
{
    let l = e.staff_list();
    let pages = meta.pages();
    assert(pages.len() == l.len());
    assert forall|i: int| 0 <= i < pages.len() implies #[trigger] pages[i] == l[i].staff.page.0 by {
        assert(meta.staves@[i] == e.plain_staves()[i]);
    }
    assert(!exists|c: int| is_first_beyond(pages, meta.n_pages, c)) by {
        if exists|c: int| is_first_beyond(pages, meta.n_pages, c) {
            let c = choose|c: int| is_first_beyond(pages, meta.n_pages, c);
            assert(l[c].staff.page.0 < e.page_list().len());
        }
    }
    assert(!exists|c: int| is_first_descent(pages, c)) by {
        if exists|c: int| is_first_descent(pages, c) {
            let c = choose|c: int| is_first_descent(pages, c);
            assert(l[c].staff.page.0 <= l[c + 1].staff.page.0);
        }
    }
    assert(meta.piece_starts@.dom().contains(0));
    assert(meta.section_starts@.dom().contains(0));
    lemma_key_order_exists(meta.piece_starts@.dom());
    lemma_key_order_exists(meta.section_starts@.dom());
    let pk = meta.piece_keys();
    let sk = meta.section_keys();
    assert(pk.to_set().contains(0));
    assert(sk.to_set().contains(0));
    assert(pk.to_set().contains(pk.last()));
    assert(sk.to_set().contains(sk.last()));
}

/// Loading a song into the editor and saving it again keeps its staves, its
/// piece and section starts with their names, its identifier, and its title and
/// composer (an empty one comes back as none).
pub proof fn lemma_load_save_roundtrip<P, G: Copy>(
    song: SongMetaV4<G>,
    e: EditorSongFile<P, G>,
    meta: SongMetaV4<G>,
)
    requires
        song.well_formed(),
        e.loaded_from(song),
        e.saved_as(meta),
    ensures
        meta.staves@ == song.staves@,
        meta.piece_starts@ == song.piece_starts@,
        meta.section_starts@ == song.section_starts@,
        meta.song_uuid == song.song_uuid,
        text_or_empty(meta.title) == text_or_empty(song.title),
        text_or_empty(meta.composer) == text_or_empty(song.composer),
{
    lemma_well_formed_facts(song);
    let l = e.staff_list();
    assert(meta.staves@ =~= song.staves@) by {
        assert forall|i: int| 0 <= i < song.staves@.len() implies meta.staves@[i] == song.staves@[i] by {
            assert(l[i] == loaded_staff(song, i));
        }
    }
    assert(meta.piece_starts@ =~= song.piece_starts@) by {
        assert forall|k: usize| meta.piece_starts@.dom().contains(k) <==> song.piece_starts@.dom().contains(k) by {
            if k < l.len() {
                assert(l[k as int] == loaded_staff(song, k as int));
            }
        }
        assert forall|k: usize| #[trigger] meta.piece_starts@.dom().contains(k) implies meta.piece_starts@[k]
            == song.piece_starts@[k] by {
            assert(l[k as int] == loaded_staff(song, k as int));
        }
    }
    assert(meta.section_starts@ =~= song.section_starts@) by {
        assert forall|k: usize| meta.section_starts@.dom().contains(k) <==> song.section_starts@.dom().contains(k) by {
            if k < l.len() {
                assert(l[k as int] == loaded_staff(song, k as int));
            }
        }
        assert forall|k: usize| #[trigger] meta.section_starts@.dom().contains(k) implies meta.section_starts@[k]
            == song.section_starts@[k] by {
            assert(l[k as int] == loaded_staff(song, k as int));
        }
    }
}

} // verus!
