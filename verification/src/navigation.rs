//! Turning pages in the viewer.
//!
//! The viewer remembers its position as a staff rather than a page, so that the
//! position survives a change of layout. From the position, the song's piece and
//! section starts and the current layout, it decides where the page-turning
//! actions lead and which of them are available.
use vstd::prelude::*;
use std::collections::BTreeMap;
use crate::collection::{SongMetaV4, StaffIndex, PageIndex};
use crate::layout::{PageLayout, staves_before, lemma_staves_before_monotone};
use crate::keys::{key_order, increasing, sorted_keys, lemma_usize_keys_ordered};

verus! {

broadcast use vstd::std_specs::btree::group_btree_axioms;

/// Every page of the layout holds a staff, and the staves can be counted.
pub open spec fn layout_usable<P>(layout: PageLayout<P>) -> bool {
    &&& forall|i: int| 0 <= i < layout.pages@.len() ==> (#[trigger] layout.pages@[i])@.len() > 0
    &&& layout.total_staves() <= usize::MAX
}

/// Page `r` of the layout holds the `s`-th staff.
pub open spec fn is_page_of<P>(layout: PageLayout<P>, s: int, r: int) -> bool {
    &&& 0 <= r < layout.pages@.len()
    &&& staves_before(layout.pages@, r) <= s < staves_before(layout.pages@, r + 1)
}

/// The page of the layout that holds the `s`-th staff.
pub open spec fn page_of<P>(layout: PageLayout<P>, s: int) -> int {
    choose|r: int| is_page_of(layout, s, r)
}

/// Only one page holds a staff.
pub proof fn lemma_page_of_unique<P>(layout: PageLayout<P>, s: int, r1: int, r2: int)
    requires
        is_page_of(layout, s, r1),
        is_page_of(layout, s, r2),
    ensures
        r1 == r2,
{
    if r1 < r2 {
        lemma_staves_before_monotone(layout.pages@, r1 + 1, r2);
    } else if r2 < r1 {
        lemma_staves_before_monotone(layout.pages@, r2 + 1, r1);
    }
}

/// The first staff on the page that holds the position.
pub open spec fn spec_page_start<P>(layout: PageLayout<P>, position: int) -> usize {
    layout.pages@[page_of(layout, position)]@[0].index.0
}

/// The last staff on the page that holds the position.
pub open spec fn spec_page_end<P>(layout: PageLayout<P>, position: int) -> usize {
    layout.pages@[page_of(layout, position)]@.last().index.0
}

/// `k` is the last key of `d` below `x`.
pub open spec fn is_last_key_below(d: Set<usize>, x: int, k: usize) -> bool {
    &&& d.contains(k)
    &&& k < x
    &&& forall|k2: usize| #[trigger] d.contains(k2) && k2 < x ==> k2 <= k
}

/// `k` is the first key of `d` above `x`.
pub open spec fn is_first_key_above(d: Set<usize>, x: int, k: usize) -> bool {
    &&& d.contains(k)
    &&& k > x
    &&& forall|k2: usize| #[trigger] d.contains(k2) && k2 > x ==> k <= k2
}

/// The last key of `keys` below `x`, if any.
fn last_key_below(keys: &Vec<usize>, x: usize) -> (r: Option<usize>)
    requires
        increasing(keys@),
    ensures
        match r {
            Some(k) => is_last_key_below(keys@.to_set(), x as int, k),
            None => forall|k: usize| #[trigger] keys@.to_set().contains(k) ==> k >= x,
        },
{
    let n = keys.len();
    let mut i: usize = 0;
    while i < n && keys[i] < x
        invariant
            n == keys@.len(),
            increasing(keys@),
            0 <= i <= n,
            forall|j: int| 0 <= j < i ==> #[trigger] keys@[j] < x,
        decreases n - i,
    {
        i += 1;
    }
    if i == 0 {
        assert forall|k: usize| #[trigger] keys@.to_set().contains(k) implies k >= x by {
            let m = choose|m: int| 0 <= m < keys@.len() && keys@[m] == k;
            if m > 0 {
                assert(keys@[0] < keys@[m]);
            }
        }
        None
    } else {
        let k = keys[i - 1];
        assert(keys@.to_set().contains(k));
        assert forall|k2: usize| #[trigger] keys@.to_set().contains(k2) && k2 < x implies k2 <= k by {
            let m = choose|m: int| 0 <= m < keys@.len() && keys@[m] == k2;
            if m > i - 1 {
                if m > i {
                    assert(keys@[i as int] < keys@[m]);
                }
            }
        }
        Some(k)
    }
}

/// The first key of `keys` above `x`, if any.
fn first_key_above(keys: &Vec<usize>, x: usize) -> (r: Option<usize>)
    requires
        increasing(keys@),
    ensures
        match r {
            Some(k) => is_first_key_above(keys@.to_set(), x as int, k),
            None => forall|k: usize| #[trigger] keys@.to_set().contains(k) ==> k <= x,
        },
{
    let n = keys.len();
    let mut i: usize = 0;
    while i < n && keys[i] <= x
        invariant
            n == keys@.len(),
            increasing(keys@),
            0 <= i <= n,
            forall|j: int| 0 <= j < i ==> #[trigger] keys@[j] <= x,
        decreases n - i,
    {
        i += 1;
    }
    if i == n {
        assert forall|k: usize| #[trigger] keys@.to_set().contains(k) implies k <= x by {
            let m = choose|m: int| 0 <= m < keys@.len() && keys@[m] == k;
        }
        None
    } else {
        let k = keys[i];
        assert(keys@.to_set().contains(k));
        assert forall|k2: usize| #[trigger] keys@.to_set().contains(k2) && k2 > x implies k <= k2 by {
            let m = choose|m: int| 0 <= m < keys@.len() && keys@[m] == k2;
            if m < i {
                assert(keys@[m] <= x);
            } else if m > i {
                assert(keys@[i as int] < keys@[m]);
            }
        }
        Some(k)
    }
}

/// The page of the layout that holds the `position`-th staff.
pub fn page_of_position<P>(layout: &PageLayout<P>, position: StaffIndex) -> (r: PageIndex)
    requires
        position.0 < layout.total_staves(),
        layout.total_staves() <= usize::MAX,
    ensures
        is_page_of(*layout, position.0 as int, r.0 as int),
        r.0 == page_of(*layout, position.0 as int),
{
    let r = layout.get_page_of_staff(position);
    proof {
        let c = page_of(*layout, position.0 as int);
        assert(is_page_of(*layout, position.0 as int, r.0 as int));
        lemma_page_of_unique(*layout, position.0 as int, c, r.0 as int);
    }
    r
}

/// On which staff does the current page start?
pub fn page_start<P>(layout: &PageLayout<P>, position: StaffIndex) -> (r: StaffIndex)
    requires
        layout_usable(*layout),
        position.0 < layout.total_staves(),
    ensures
        r.0 == spec_page_start(*layout, position.0 as int),
{
    let page = page_of_position(layout, position);
    layout.pages[page.0][0].index
}

/// On which staff does the current page end?
pub fn page_end<P>(layout: &PageLayout<P>, position: StaffIndex) -> (r: StaffIndex)
    requires
        layout_usable(*layout),
        position.0 < layout.total_staves(),
    ensures
        r.0 == spec_page_end(*layout, position.0 as int),
{
    let page = page_of_position(layout, position);
    let on_page = &layout.pages[page.0];
    on_page[on_page.len() - 1].index
}

/// When we're at a given page and want to go back, should we jump to the start of
/// the repetition? It is the last section starting before the current page, if
/// that section is a repetition; `None` means to simply go back one page.
pub fn section_start<G, P>(song: &SongMetaV4<G>, layout: &PageLayout<P>, position: StaffIndex) -> (r: Option<StaffIndex>)
    requires
        layout_usable(*layout),
        position.0 < layout.total_staves(),
    ensures
        ({
            let d = song.section_starts@.dom();
            let x = spec_page_start(*layout, position.0 as int) as int;
            match r {
                Some(k) => is_last_key_below(d, x, k.0) && song.section_starts@[k.0].is_repetition,
                None => forall|k: usize| is_last_key_below(d, x, k) ==> !song.section_starts@[k].is_repetition,
            }
        }),
{
    proof {
        lemma_usize_keys_ordered();
    }
    let start = page_start(layout, position);
    let keys = sorted_keys(&song.section_starts);
    match last_key_below(&keys, start.0) {
        Some(k) => {
            let meta = *song.section_starts.get(&k).unwrap();
            if meta.is_repetition {
                Some(StaffIndex(k))
            } else {
                proof {
                    let d = song.section_starts@.dom();
                    assert forall|k2: usize| is_last_key_below(d, start.0 as int, k2) implies
                        !song.section_starts@[k2].is_repetition by {
                        assert(k2 <= k && k <= k2);
                    }
                }
                None
            }
        },
        None => None,
    }
}

/// Which piece the position is in, counting from 0: the number of piece starts
/// at or before it, less one.
pub fn current_piece_index<G>(song: &SongMetaV4<G>, position: StaffIndex) -> (r: usize)
    requires
        exists|k: usize| song.piece_starts@.dom().contains(k) && k <= position.0,
    ensures
        r < song.piece_keys().len(),
        song.piece_keys()[r as int] <= position.0,
        r + 1 < song.piece_keys().len() ==> song.piece_keys()[r + 1] > position.0,
{
    let keys = sorted_keys(&song.piece_starts);
    let ghost w = choose|k: usize| song.piece_starts@.dom().contains(k) && k <= position.0;
    assert(keys@.to_set().contains(w));
    assert(keys@[0] <= position.0) by {
        let m = choose|m: int| 0 <= m < keys@.len() && keys@[m] == w;
        if m > 0 {
            assert(keys@[0] < keys@[m]);
        }
    }
    let n = keys.len();
    let mut count: usize = 0;
    while count < n && keys[count] <= position.0
        invariant
            n == keys@.len(),
            increasing(keys@),
            keys@[0] <= position.0,
            0 <= count <= n,
            forall|j: int| 0 <= j < count ==> #[trigger] keys@[j] <= position.0,
        decreases n - count,
    {
        count += 1;
    }
    count - 1
}

/// When we're at a given position, where did the piece we are in start? It is
/// the last piece start before the current page, or the first staff if there is
/// none.
pub fn previous_piece<G, P>(song: &SongMetaV4<G>, layout: &PageLayout<P>, position: StaffIndex) -> (r: StaffIndex)
    requires
        layout_usable(*layout),
        position.0 < layout.total_staves(),
    ensures
        ({
            let d = song.piece_starts@.dom();
            let x = spec_page_start(*layout, position.0 as int) as int;
            ||| is_last_key_below(d, x, r.0)
            ||| (r.0 == 0 && forall|k: usize| #[trigger] d.contains(k) ==> k >= x)
        }),
{
    let start = page_start(layout, position);
    let keys = sorted_keys(&song.piece_starts);
    match last_key_below(&keys, start.0) {
        Some(k) => StaffIndex(k),
        None => StaffIndex(0),
    }
}

/// The first piece start after the current page; `None` if we already are in the
/// last piece.
pub fn next_piece<G, P>(song: &SongMetaV4<G>, layout: &PageLayout<P>, position: StaffIndex) -> (r: Option<StaffIndex>)
    requires
        layout_usable(*layout),
        position.0 < layout.total_staves(),
    ensures
        ({
            let d = song.piece_starts@.dom();
            let x = spec_page_end(*layout, position.0 as int) as int;
            match r {
                Some(k) => is_first_key_above(d, x, k.0),
                None => forall|k: usize| #[trigger] d.contains(k) ==> k <= x,
            }
        }),
{
    let end = page_end(layout, position);
    let keys = sorted_keys(&song.piece_starts);
    match first_key_above(&keys, end.0) {
        Some(k) => Some(StaffIndex(k)),
        None => None,
    }
}

/// Where turning to the next page leads: the first staff of the next page.
pub fn next_page_position<P>(layout: &PageLayout<P>, position: StaffIndex) -> (r: StaffIndex)
    requires
        layout_usable(*layout),
        position.0 < layout.total_staves(),
        page_of(*layout, position.0 as int) + 1 < layout.pages@.len(),
    ensures
        r == layout.pages@[page_of(*layout, position.0 as int) + 1]@[0].index,
{
    let page = page_of_position(layout, position);
    let count = layout.pages.len();
    assert(page.0 + 1 < count);
    layout.pages[page.0 + 1][0].index
}

/// Where turning back one page leads: to the start of the repetition that ends
/// here if there is one, else to the first staff of the previous page.
pub fn previous_page_position<G, P>(song: &SongMetaV4<G>, layout: &PageLayout<P>, position: StaffIndex) -> (r: StaffIndex)
    requires
        layout_usable(*layout),
        position.0 < layout.total_staves(),
        page_of(*layout, position.0 as int) > 0,
    ensures
        ({
            let d = song.section_starts@.dom();
            let x = spec_page_start(*layout, position.0 as int) as int;
            let back = layout.pages@[page_of(*layout, position.0 as int) - 1]@[0].index;
            ||| (is_last_key_below(d, x, r.0) && song.section_starts@[r.0].is_repetition)
            ||| (r == back && forall|k: usize| is_last_key_below(d, x, k) ==> !song.section_starts@[k].is_repetition)
        }),
{
    let page = page_of_position(layout, position);
    let back = layout.pages[page.0 - 1][0].index;
    match section_start(song, layout, position) {
        Some(k) => k,
        None => back,
    }
}

/// Where turning back exactly one page leads: the first staff of the previous page.
pub fn previous_page_strict_position<P>(layout: &PageLayout<P>, position: StaffIndex) -> (r: StaffIndex)
    requires
        layout_usable(*layout),
        position.0 < layout.total_staves(),
        page_of(*layout, position.0 as int) > 0,
    ensures
        r == layout.pages@[page_of(*layout, position.0 as int) - 1]@[0].index,
{
    let page = page_of_position(layout, position);
    layout.pages[page.0 - 1][0].index
}

/// Where selecting the `part`-th piece leads: the staff it starts at.
pub fn piece_position<G>(song: &SongMetaV4<G>, part: usize) -> (r: StaffIndex)
    requires
        part < song.piece_keys().len(),
    ensures
        r.0 == song.piece_keys()[part as int],
{
    let keys = sorted_keys(&song.piece_starts);
    StaffIndex(keys[part])
}

/// Which page-turning actions can be used at a position.
pub struct Actions {
    pub next_page: bool,
    pub previous_page: bool,
    pub next_piece: bool,
    pub previous_piece: bool,
}

/// Which page-turning actions can be used: forward unless on the last page, back
/// unless on the first page, and to the next piece unless in the last one.
pub fn enabled_actions<G, P>(song: &SongMetaV4<G>, layout: &PageLayout<P>, position: StaffIndex) -> (r: Actions)
    requires
        layout_usable(*layout),
        position.0 < layout.total_staves(),
    ensures
        ({
            let page = page_of(*layout, position.0 as int);
            &&& r.next_page == (page < layout.pages@.len() - 1)
            &&& r.previous_page == (page > 0)
            &&& r.previous_piece == (page > 0)
            &&& r.next_piece == exists|k: usize| #[trigger] song.piece_starts@.dom().contains(k)
                && k > spec_page_end(*layout, position.0 as int)
        }),
{
    let page = page_of_position(layout, position);
    let next = next_piece(song, layout, position);
    Actions {
        next_page: page.0 < layout.pages.len() - 1,
        previous_page: page.0 > 0,
        next_piece: next.is_some(),
        previous_piece: page.0 > 0,
    }
}

} // verus!
