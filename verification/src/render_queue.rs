//! The order in which the pages of a song are rendered in the background.
//!
//! At first the pages are taken round-robin across the pieces of the song, so that every piece
//! shows something soon; once the reader moves or the resolution changes, the pages closest to
//! the one on screen come first.
use vstd::prelude::*;
use crate::keys::increasing;

verus! {

/// The sequence without repeats of a value next to itself.
pub open spec fn deduped(s: Seq<usize>) -> Seq<usize>
    decreases s.len(),
{
    if s.len() <= 1 {
        s
    } else if s[s.len() - 2] == s.last() {
        deduped(s.drop_last())
    } else {
        deduped(s.drop_last()).push(s.last())
    }
}

proof fn lemma_deduped_last(s: Seq<usize>)
    requires
        s.len() >= 1,
    ensures
        deduped(s).len() >= 1,
        deduped(s).last() == s.last(),
        deduped(s).len() <= s.len(),
    decreases s.len(),
{
    if s.len() > 1 {
        lemma_deduped_last(s.drop_last());
    }
}

/// Removes repeats of a value next to itself (`Vec::dedup`).
pub fn dedup(v: &Vec<usize>) -> (out: Vec<usize>)
    ensures
        out@ == deduped(v@),
{
    let mut out: Vec<usize> = Vec::new();
    let mut i: usize = 0;
    while i < v.len()
        invariant
            i <= v.len(),
            out@ == deduped(v@.subrange(0, i as int)),
            i >= 1 ==> out.len() >= 1 && out@.last() == v@[i - 1],
        decreases v.len() - i,
    {
        let ghost pre = v@.subrange(0, i as int);
        let ghost next = v@.subrange(0, i + 1);
        proof {
            assert(next.drop_last() =~= pre);
            if i >= 1 {
                lemma_deduped_last(pre);
            }
        }
        if i == 0 || out[out.len() - 1] != v[i] {
            out.push(v[i]);
        }
        proof {
            lemma_deduped_last(next);
        }
        i = i + 1;
    }
    assert(v@.subrange(0, v.len() as int) =~= v@);
    out
}

/// Where the piece starting at `starts[j]` ends: at the next start, the last one at `n_pages`.
pub open spec fn piece_end(starts: Seq<usize>, j: int, n_pages: int) -> int {
    if j + 1 < starts.len() {
        starts[j + 1] as int
    } else {
        n_pages
    }
}

/// Round `k` of the interleaving over the pieces `0..j`: the `k`-th page of each piece that has
/// more than `k` pages, in piece order.
pub open spec fn round_pages(starts: Seq<usize>, n_pages: int, k: int, j: int) -> Seq<usize>
    decreases j,
{
    if j <= 0 {
        Seq::empty()
    } else {
        let earlier = round_pages(starts, n_pages, k, j - 1);
        if starts[j - 1] + k < piece_end(starts, j - 1, n_pages) {
            earlier.push((starts[j - 1] + k) as usize)
        } else {
            earlier
        }
    }
}

/// The rounds `k, k + 1, ...` of the interleaving, one after the other.
pub open spec fn interleaving(starts: Seq<usize>, n_pages: int, k: int) -> Seq<usize>
    decreases n_pages - k,
{
    if k >= n_pages {
        Seq::empty()
    } else {
        round_pages(starts, n_pages, k, starts.len() as int) + interleaving(starts, n_pages, k + 1)
    }
}

/// The first page of each piece, increasing, the first one 0 and the last one a page of the
/// song.
pub open spec fn valid_piece_pages(starts: Seq<usize>, n_pages: int) -> bool {
    &&& starts.len() >= 1
    &&& starts[0] == 0
    &&& forall|i: int, j: int| 0 <= i < j < starts.len() ==> starts[i] <= starts[j]
    &&& starts.last() < n_pages
}

/// The order in which the pages are first rendered: round-robin across the pieces, the first
/// page of every piece, then the second page of every piece that has one, and so on. The pieces
/// are given by their first pages (several pieces may start on one page).
pub fn render_order(piece_starts: &Vec<usize>, n_pages: usize) -> (order: Vec<usize>)
    requires
        valid_piece_pages(piece_starts@, n_pages as int),
    ensures
        order@ == interleaving(deduped(piece_starts@), n_pages as int, 0),
{
    let starts = dedup(piece_starts);
    let mut order: Vec<usize> = Vec::new();
    let mut k: usize = 0;
    while k < n_pages
        invariant
            k <= n_pages,
            order@ + interleaving(starts@, n_pages as int, k as int) == interleaving(
                starts@,
                n_pages as int,
                0,
            ),
        decreases n_pages - k,
    {
        let ghost before = order@;
        let mut j: usize = 0;
        while j < starts.len()
            invariant
                k < n_pages,
                j <= starts.len(),
                order@ == before + round_pages(starts@, n_pages as int, k as int, j as int),
            decreases starts.len() - j,
        {
            let end: usize = if j + 1 < starts.len() {
                starts[j + 1]
            } else {
                n_pages
            };
            if starts[j] < end && k < end - starts[j] {
                order.push(starts[j] + k);
            }
            proof {
                assert(order@ =~= before + round_pages(starts@, n_pages as int, k as int, j + 1));
            }
            j = j + 1;
        }
        proof {
            assert(before + interleaving(starts@, n_pages as int, k as int) =~= order@
                + interleaving(starts@, n_pages as int, k + 1));
        }
        k = k + 1;
    }
    assert(order@ + interleaving(starts@, n_pages as int, n_pages as int) =~= order@);
    order
}

/// How far page `p` is from page `page`.
pub open spec fn distance(p: int, page: int) -> int {
    if p >= page {
        p - page
    } else {
        page - p
    }
}

/// `sorted` with `p` inserted after the last page that is no further from `page`.
pub open spec fn insert_by_distance(sorted: Seq<usize>, p: usize, page: int) -> Seq<usize>
    decreases sorted.len(),
{
    if sorted.len() == 0 {
        seq![p]
    } else if distance(sorted.last() as int, page) <= distance(p as int, page) {
        sorted.push(p)
    } else {
        insert_by_distance(sorted.drop_last(), p, page).push(sorted.last())
    }
}

/// The pages ordered by their distance from `page`, nearest first; pages equally far keep their
/// order.
pub open spec fn sorted_by_distance(pages: Seq<usize>, page: int) -> Seq<usize>
    decreases pages.len(),
{
    if pages.len() == 0 {
        pages
    } else {
        insert_by_distance(sorted_by_distance(pages.drop_last(), page), pages.last(), page)
    }
}

proof fn lemma_insert_after(v: Seq<usize>, p: usize, page: int, at: int)
    requires
        0 <= at <= v.len(),
        forall|i: int| at <= i < v.len() ==> distance(#[trigger] v[i] as int, page) > distance(p as int, page),
    ensures
        insert_by_distance(v, p, page) == insert_by_distance(v.subrange(0, at), p, page) + v.subrange(
            at,
            v.len() as int,
        ),
    decreases v.len(),
{
    if at == v.len() {
        assert(v.subrange(0, at) == v);
        assert(v.subrange(at, v.len() as int) =~= Seq::<usize>::empty());
    } else {
        let d = v.drop_last();
        assert(distance(v[v.len() - 1] as int, page) > distance(p as int, page));
        assert forall|i: int| at <= i < d.len() implies distance(#[trigger] d[i] as int, page) > distance(
            p as int,
            page,
        ) by {
            assert(d[i] == v[i]);
        }
        lemma_insert_after(d, p, page, at);
        assert(d.subrange(0, at) =~= v.subrange(0, at));
        assert((insert_by_distance(d.subrange(0, at), p, page) + d.subrange(at, d.len() as int)).push(
            v.last(),
        ) =~= insert_by_distance(d.subrange(0, at), p, page) + v.subrange(at, v.len() as int));
    }
}

/// The pages are ordered by their distance from `page`, nearest first.
pub open spec fn nearest_first(v: Seq<usize>, page: int) -> bool {
    forall|i: int, j: int| 0 <= i < j < v.len() ==> distance(v[i] as int, page) <= distance(v[j] as int, page)
}

proof fn lemma_insert_by_distance_ordered(v: Seq<usize>, p: usize, page: int)
    requires
        nearest_first(v, page),
    ensures
        nearest_first(insert_by_distance(v, p, page), page),
        insert_by_distance(v, p, page).to_multiset() == v.to_multiset().insert(p),
    decreases v.len(),
{
    broadcast use vstd::seq_lib::group_to_multiset_ensures;
    broadcast use vstd::multiset::group_multiset_axioms;

    if v.len() == 0 {
        assert(seq![p] =~= Seq::<usize>::empty().push(p));
    } else if distance(v.last() as int, page) <= distance(p as int, page) {
        assert(v.drop_last().push(v.last()) =~= v);
    } else {
        let d = v.drop_last();
        let l = v.last();
        lemma_insert_by_distance_ordered(d, p, page);
        let r = insert_by_distance(d, p, page);
        assert(v =~= d.push(l));
        assert forall|i: int| 0 <= i < r.len() implies distance(#[trigger] r[i] as int, page) <= distance(
            l as int,
            page,
        ) by {
            assert(r.to_multiset().count(r[i]) > 0) by {
                assert(r.contains(r[i]));
            }
            if r[i] != p {
                assert(d.to_multiset().count(r[i]) > 0);
                assert(d.contains(r[i]));
                let k = choose|k: int| 0 <= k < d.len() && d[k] == r[i];
                assert(v[k] == r[i]);
            }
        }
        assert(r.push(l).to_multiset() =~= r.to_multiset().insert(l));
        assert(r.to_multiset().insert(l) =~= d.to_multiset().insert(l).insert(p));
    }
}

/// Reordering the queue (`sort_by_distance`) puts the pages nearest to the page on screen
/// first and keeps exactly the pages that were queued.
pub proof fn lemma_sort_by_distance_orders_and_keeps(v: Seq<usize>, page: int)
    ensures
        nearest_first(sorted_by_distance(v, page), page),
        sorted_by_distance(v, page).to_multiset() == v.to_multiset(),
    decreases v.len(),
{
    broadcast use vstd::seq_lib::group_to_multiset_ensures;

    if v.len() > 0 {
        let d = v.drop_last();
        lemma_sort_by_distance_orders_and_keeps(d, page);
        lemma_insert_by_distance_ordered(sorted_by_distance(d, page), v.last(), page);
        assert(d.push(v.last()) =~= v);
    }
}

fn distance_of(p: usize, page: usize) -> (d: usize)
    ensures
        d == distance(p as int, page as int),
{
    if p >= page {
        p - page
    } else {
        page - p
    }
}

/// Orders the pages by their distance from `page`, nearest first; pages equally far keep their
/// order.
pub fn sort_by_distance(pages: Vec<usize>, page: usize) -> (out: Vec<usize>)
    ensures
        out@ == sorted_by_distance(pages@, page as int),
{
    let mut out: Vec<usize> = Vec::new();
    let mut i: usize = 0;
    while i < pages.len()
        invariant
            i <= pages.len(),
            out@ == sorted_by_distance(pages@.subrange(0, i as int), page as int),
        decreases pages.len() - i,
    {
        let p = pages[i];
        let dp = distance_of(p, page);
        let mut at = out.len();
        while at > 0 && distance_of(out[at - 1], page) > dp
            invariant
                at <= out.len(),
                dp == distance(p as int, page as int),
                forall|k: int| at <= k < out.len() ==> distance(#[trigger] out@[k] as int, page as int) > dp,
            decreases at,
        {
            at = at - 1;
        }
        proof {
            lemma_insert_after(out@, p, page as int, at as int);
            let pre = out@.subrange(0, at as int);
            if at > 0 {
                assert(pre.last() == out@[at - 1]);
            }
            assert(insert_by_distance(pre, p, page as int) == pre.push(p));
            assert(out@.insert(at as int, p) =~= pre.push(p) + out@.subrange(at as int, out.len() as int));
            let next = pages@.subrange(0, i + 1);
            assert(next.drop_last() =~= pages@.subrange(0, i as int));
            assert(next.last() == p);
        }
        out.insert(at, p);
        i = i + 1;
    }
    assert(pages@.subrange(0, pages.len() as int) =~= pages@);
    out
}

/// A request from the viewer: the page on screen, and the rendering width where it changed
/// (already rounded to one of the width levels).
pub type Update = (usize, Option<i32>);

/// Folds a newer request into the pending one: the newer page counts, and the newer width where
/// it has one, else the pending width.
pub open spec fn folded(last: Option<Update>, next: Update) -> Update {
    match (last, next.1) {
        (Some(l), None) => (next.0, l.1),
        _ => next,
    }
}

/// Folds a newer request into the pending one (see `folded`).
pub fn fold_update(last: Option<Update>, next: Update) -> (out: Update)
    ensures
        out == folded(last, next),
{
    match (last, next.1) {
        (Some(l), None) => (next.0, l.1),
        _ => next,
    }
}

/// The state of the background renderer: the pages still to render, the width they are
/// rendered at, and the page on screen.
pub struct RenderQueue {
    pub queue: Vec<usize>,
    pub width: i32,
    pub page: usize,
}

impl RenderQueue {
    /// The state after the first pass: nothing queued, the smallest width, the first page.
    pub fn new(width: i32) -> (q: RenderQueue)
        ensures
            q.queue@ == Seq::<usize>::empty(),
            q.width == width,
            q.page == 0,
    {
        RenderQueue { queue: Vec::new(), width, page: 0 }
    }

    /// Handles a request: a new width restarts the queue from `order` at that width; where the
    /// width or the page changed, the queue is reordered by the distance from the page on
    /// screen.
    pub fn apply_update(&mut self, update: Option<Update>, order: &Vec<usize>)
        ensures
            ({
                let (w_changed, width) = match update {
                    Some((_, Some(w))) => (w != old(self).width, w),
                    _ => (false, old(self).width),
                };
                let (p_changed, page) = match update {
                    Some((p, _)) => (p != old(self).page, p),
                    None => (false, old(self).page),
                };
                let queue = if w_changed {
                    order@
                } else {
                    old(self).queue@
                };
                &&& final(self).width == width
                &&& final(self).page == page
                &&& final(self).queue@ == if (w_changed || p_changed) && queue.len() > 0 {
                    sorted_by_distance(queue, page as int)
                } else {
                    queue
                }
            }),
    {
        let mut shuffle = false;
        match update {
            Some((page, width)) => {
                match width {
                    Some(w) => {
                        if w != self.width {
                            self.width = w;
                            self.queue = order.clone();
                            proof {
                                assert(self.queue@ =~= order@);
                            }
                            shuffle = true;
                        }
                    },
                    None => {},
                }
                if page != self.page {
                    self.page = page;
                    shuffle = true;
                }
            },
            None => {},
        }
        if shuffle && self.queue.len() > 0 {
            let mut queue: Vec<usize> = Vec::new();
            std::mem::swap(&mut queue, &mut self.queue);
            self.queue = sort_by_distance(queue, self.page);
        }
    }

    /// Takes the next page to render off the front of the queue.
    pub fn next_page(&mut self) -> (p: Option<usize>)
        ensures
            old(self).queue.len() == 0 ==> p is None && final(self).queue@ == old(self).queue@,
            old(self).queue.len() > 0 ==> p == Some(old(self).queue@[0]) && final(self).queue@
                == old(self).queue@.drop_first(),
            final(self).width == old(self).width,
            final(self).page == old(self).page,
    {
        if self.queue.len() == 0 {
            None
        } else {
            let p = self.queue.remove(0);
            proof {
                assert(self.queue@ =~= old(self).queue@.drop_first());
            }
            Some(p)
        }
    }
}

proof fn lemma_deduped_increasing(s: Seq<usize>)
    requires
        forall|i: int, j: int| 0 <= i < j < s.len() ==> s[i] <= s[j],
    ensures
        increasing(deduped(s)),
        s.len() >= 1 ==> deduped(s).len() >= 1 && deduped(s)[0] == s[0] && deduped(s).last() == s.last(),
        forall|i: int| 0 <= i < deduped(s).len() ==> s.contains(#[trigger] deduped(s)[i]),
    decreases s.len(),
{
    if s.len() > 1 {
        let d = s.drop_last();
        lemma_deduped_increasing(d);
        lemma_deduped_last(d);
        let dd = deduped(d);
        assert forall|i: int| 0 <= i < dd.len() implies s.contains(#[trigger] dd[i]) by {
            let k = choose|k: int| 0 <= k < d.len() && d[k] == dd[i];
            assert(s[k] == dd[i]);
        }
        if s[s.len() - 2] != s.last() {
            assert(s.contains(s.last()));
            assert forall|i: int| 0 <= i < dd.len() implies #[trigger] dd[i] < s.last() by {
                let k = choose|k: int| 0 <= k < d.len() && d[k] == dd[i];
                assert(s[k] <= s[s.len() - 2]);
            }
        }
    } else if s.len() == 1 {
        assert(s.contains(s[0]));
    }
}

/// Page `x` lies in piece `i`, at position `kk` within it.
pub open spec fn page_of_piece(t: Seq<usize>, n_pages: int, i: int, kk: int, x: int) -> bool {
    &&& 0 <= i < t.len()
    &&& 0 <= kk
    &&& t[i] + kk == x
    &&& x < piece_end(t, i, n_pages)
}

proof fn lemma_round_members(t: Seq<usize>, n_pages: int, k: int, j: int)
    requires
        n_pages <= usize::MAX,
        0 <= k,
        0 <= j <= t.len(),
        increasing(t),
    ensures
        forall|x: usize|
            round_pages(t, n_pages, k, j).contains(x) <==> exists|i: int|
                0 <= i < j && #[trigger] page_of_piece(t, n_pages, i, k, x as int),
        increasing(round_pages(t, n_pages, k, j)),
    decreases j,
{
    if j > 0 {
        lemma_round_members(t, n_pages, k, j - 1);
        let earlier = round_pages(t, n_pages, k, j - 1);
        let r = round_pages(t, n_pages, k, j);
        if t[j - 1] + k < piece_end(t, j - 1, n_pages) {
            let x0 = (t[j - 1] + k) as usize;
            assert(page_of_piece(t, n_pages, j - 1, k, x0 as int));
            assert forall|x: usize| r.contains(x) <==> exists|i: int|
                0 <= i < j && #[trigger] page_of_piece(t, n_pages, i, k, x as int) by {
                if r.contains(x) {
                    let q = choose|q: int| 0 <= q < r.len() && r[q] == x;
                    if q < earlier.len() {
                        assert(earlier[q] == x);
                        assert(earlier.contains(x));
                    }
                }
                if exists|i: int| 0 <= i < j && #[trigger] page_of_piece(t, n_pages, i, k, x as int) {
                    let i = choose|i: int| 0 <= i < j && #[trigger] page_of_piece(t, n_pages, i, k, x as int);
                    if i < j - 1 {
                        assert(earlier.contains(x));
                        let q = choose|q: int| 0 <= q < earlier.len() && earlier[q] == x;
                        assert(r[q] == x);
                    } else {
                        assert(r[r.len() - 1] == x);
                    }
                }
            }
            assert forall|a: int, b: int| 0 <= a < b < r.len() implies r[a] < r[b] by {
                if b == r.len() - 1 {
                    assert(earlier.contains(r[a]));
                    let i = choose|i: int| 0 <= i < j - 1 && #[trigger] page_of_piece(t, n_pages, i, k, r[a] as int);
                    assert(t[i] < t[j - 1]);
                }
            }
        }
    }
}

proof fn lemma_interleaving_members(t: Seq<usize>, n_pages: int, k: int)
    requires
        n_pages <= usize::MAX,
        0 <= k,
        increasing(t),
    ensures
        forall|x: usize|
            interleaving(t, n_pages, k).contains(x) <==> exists|i: int, kk: int|
                k <= kk < n_pages && #[trigger] page_of_piece(t, n_pages, i, kk, x as int),
    decreases n_pages - k,
{
    if k < n_pages {
        lemma_interleaving_members(t, n_pages, k + 1);
        lemma_round_members(t, n_pages, k, t.len() as int);
        let r = round_pages(t, n_pages, k, t.len() as int);
        let rest = interleaving(t, n_pages, k + 1);
        let all = interleaving(t, n_pages, k);
        assert(all == r + rest);
        assert forall|x: usize| all.contains(x) <==> exists|i: int, kk: int|
            k <= kk < n_pages && #[trigger] page_of_piece(t, n_pages, i, kk, x as int) by {
            if all.contains(x) {
                let q = choose|q: int| 0 <= q < all.len() && all[q] == x;
                if q < r.len() {
                    assert(r[q] == x);
                    assert(r.contains(x));
                    let i = choose|i: int| 0 <= i < t.len() && #[trigger] page_of_piece(t, n_pages, i, k, x as int);
                    assert(page_of_piece(t, n_pages, i, k, x as int));
                } else {
                    assert(rest[q - r.len()] == x);
                    assert(rest.contains(x));
                }
            }
            if exists|i: int, kk: int| k <= kk < n_pages && #[trigger] page_of_piece(t, n_pages, i, kk, x as int) {
                let (i, kk) = choose|i: int, kk: int| k <= kk < n_pages && #[trigger] page_of_piece(t, n_pages, i, kk, x as int);
                if kk == k {
                    assert(r.contains(x));
                    let q = choose|q: int| 0 <= q < r.len() && r[q] == x;
                    assert(all[q] == x);
                } else {
                    assert(rest.contains(x));
                    let q = choose|q: int| 0 <= q < rest.len() && rest[q] == x;
                    assert(all[r.len() + q] == x);
                }
            }
        }
    }
}

proof fn lemma_pieces_disjoint(t: Seq<usize>, n_pages: int, i: int, j: int, ki: int, kj: int, x: int)
    requires
        increasing(t),
        page_of_piece(t, n_pages, i, ki, x),
        page_of_piece(t, n_pages, j, kj, x),
    ensures
        i == j,
        ki == kj,
{
    if i < j {
        assert(t[i + 1] <= t[j]);
    }
    if j < i {
        assert(t[j + 1] <= t[i]);
    }
}

proof fn lemma_interleaving_no_duplicates(t: Seq<usize>, n_pages: int, k: int)
    requires
        n_pages <= usize::MAX,
        0 <= k,
        increasing(t),
    ensures
        interleaving(t, n_pages, k).no_duplicates(),
    decreases n_pages - k,
{
    if k < n_pages {
        lemma_interleaving_no_duplicates(t, n_pages, k + 1);
        lemma_interleaving_members(t, n_pages, k + 1);
        lemma_round_members(t, n_pages, k, t.len() as int);
        let r = round_pages(t, n_pages, k, t.len() as int);
        let rest = interleaving(t, n_pages, k + 1);
        let all = interleaving(t, n_pages, k);
        assert(all == r + rest);
        assert forall|a: int, b: int| 0 <= a < all.len() && 0 <= b < all.len() && a != b implies all[a]
            != all[b] by {
            if a < r.len() && b < r.len() {
                if a > b {
                    assert(r[b] < r[a]);
                } else {
                    assert(r[a] < r[b]);
                }
            } else if a >= r.len() && b >= r.len() {
                assert(rest[a - r.len()] != rest[b - r.len()]);
            } else {
                let (ra, rb) = if a < r.len() {
                    (a, b - r.len())
                } else {
                    (b, a - r.len())
                };
                let x = r[ra];
                if x == rest[rb] {
                    assert(r.contains(x));
                    assert(rest.contains(x));
                    let i = choose|i: int| 0 <= i < t.len() && #[trigger] page_of_piece(t, n_pages, i, k, x as int);
                    let (j, kk) = choose|j: int, kk: int| k + 1 <= kk < n_pages && #[trigger] page_of_piece(t, n_pages, j, kk, x as int);
                    lemma_pieces_disjoint(t, n_pages, i, j, k, kk, x as int);
                }
            }
        }
    }
}

/// Page `p` lies between the start of piece `i` and the start of the next one.
pub open spec fn in_piece(t: Seq<usize>, i: int, p: int) -> bool {
    0 <= i < t.len() && t[i] <= p && (i + 1 == t.len() || p < t[i + 1])
}

proof fn lemma_piece_containing(t: Seq<usize>, n_pages: int, p: int)
    requires
        t.len() >= 1,
        t[0] == 0,
        0 <= p,
    ensures
        exists|i: int| #[trigger] in_piece(t, i, p),
    decreases t.len(),
{
    if t.len() > 1 {
        let d = t.drop_last();
        lemma_piece_containing(d, n_pages, p);
        let i = choose|i: int| #[trigger] in_piece(d, i, p);
        if i + 1 == d.len() && t.last() <= p {
            assert(in_piece(t, t.len() - 1, p));
        } else {
            assert(in_piece(t, i, p));
        }
    } else {
        assert(in_piece(t, 0, p));
    }
}

/// The first rendering order (`render_order`) holds every page of the song exactly once, and
/// nothing else.
pub proof fn lemma_render_order_is_permutation(piece_starts: Seq<usize>, n_pages: usize)
    requires
        valid_piece_pages(piece_starts, n_pages as int),
    ensures
        forall|p: usize| p < n_pages ==> #[trigger] interleaving(deduped(piece_starts), n_pages as int, 0).contains(p),
        forall|q: int| 0 <= q < interleaving(deduped(piece_starts), n_pages as int, 0).len()
            ==> #[trigger] interleaving(deduped(piece_starts), n_pages as int, 0)[q] < n_pages,
        interleaving(deduped(piece_starts), n_pages as int, 0).no_duplicates(),
{
    let t = deduped(piece_starts);
    lemma_deduped_increasing(piece_starts);
    lemma_interleaving_members(t, n_pages as int, 0);
    lemma_interleaving_no_duplicates(t, n_pages as int, 0);
    let order = interleaving(t, n_pages as int, 0);
    assert(t.last() < n_pages) by {
        assert(t.last() == piece_starts.last());
    }
    assert forall|p: usize| p < n_pages implies #[trigger] order.contains(p) by {
        lemma_piece_containing(t, n_pages as int, p as int);
        let i = choose|i: int| #[trigger] in_piece(t, i, p as int);
        assert(page_of_piece(t, n_pages as int, i, p - t[i], p as int));
    }
    assert forall|q: int| 0 <= q < order.len() implies #[trigger] order[q] < n_pages by {
        assert(order.contains(order[q]));
        let (i, kk) = choose|i: int, kk: int| 0 <= kk < n_pages && #[trigger] page_of_piece(t, n_pages as int, i, kk, order[q] as int);
    }
}

} // verus!
