//! How the staves of a song are laid out onto screen pages.
//!
//! A layout is a list of pages, each a list of placed staves in song order. Where
//! on the page a staff goes (its position and size) is decided by floating-point
//! geometry outside the library and carried as an opaque placement `P`; what
//! the library computes is which staves share a page and how to find them.
use vstd::prelude::*;
use std::collections::BTreeMap;
use crate::collection::{PageIndex, StaffIndex};
use crate::keys::lemma_usize_keys_ordered;

verus! {

broadcast use vstd::std_specs::btree::group_btree_axioms;

/// A staff placed on a page.
pub struct StaffLayout<P> {
    pub index: StaffIndex,
    /// Where the staff goes on the page and how wide it is.
    pub place: P,
}

/// The staves of a song, distributed onto pages.
pub struct PageLayout<P> {
    /// Pages[Staves]
    pub pages: Vec<Vec<StaffLayout<P>>>,
    /// A random Uuid regenerated for each layout change
    pub random_id: uuid::Uuid,
}

/// Number of staves on the first `k` pages.
pub open spec fn staves_before<P>(pages: Seq<Vec<StaffLayout<P>>>, k: int) -> int
    decreases k,
{
    if k <= 0 {
        0
    } else {
        staves_before(pages, k - 1) + pages[k - 1]@.len()
    }
}

/// More pages hold at least as many staves.
pub proof fn lemma_staves_before_monotone<P>(pages: Seq<Vec<StaffLayout<P>>>, a: int, b: int)
    requires
        0 <= a <= b,
    ensures
        staves_before(pages, a) <= staves_before(pages, b),
    decreases b - a,
{
    if a < b {
        lemma_staves_before_monotone(pages, a, b - 1);
    }
}

impl<P> PageLayout<P> {
    /// Number of staves on all pages.
    pub open spec fn total_staves(&self) -> int {
        staves_before(self.pages@, self.pages@.len() as int)
    }

    /// Get the index of the staff at the center of the page.
    pub fn get_center_staff(&self, page: PageIndex) -> (r: StaffIndex)
        requires
            page.0 < self.pages@.len(),
            self.total_staves() <= usize::MAX,
        ensures
            r.0 == staves_before(self.pages@, page.0 as int) + self.pages@[page.0 as int]@.len() / 2,
    {
        let mut sum: usize = 0;
        let mut i: usize = 0;
        while i < page.0
            invariant
                page.0 < self.pages@.len(),
                self.total_staves() <= usize::MAX,
                0 <= i <= page.0,
                sum == staves_before(self.pages@, i as int),
            decreases page.0 - i,
        {
            proof {
                lemma_staves_before_monotone(self.pages@, i + 1, self.pages@.len() as int);
            }
            sum += self.pages[i].len();
            i += 1;
        }
        proof {
            lemma_staves_before_monotone(self.pages@, page.0 + 1, self.pages@.len() as int);
        }
        StaffIndex(sum + self.pages[page.0].len() / 2)
    }

    /// The staves on a page, in order.
    pub fn get_staves_of_page(&self, page: PageIndex) -> (r: Vec<StaffIndex>)
        requires
            page.0 < self.pages@.len(),
        ensures
            r@.len() == self.pages@[page.0 as int]@.len(),
            forall|i: int| 0 <= i < r@.len() ==> #[trigger] r@[i] == self.pages@[page.0 as int]@[i].index,
    {
        let on_page = &self.pages[page.0];
        let mut r: Vec<StaffIndex> = Vec::new();
        let n = on_page.len();
        let mut i: usize = 0;
        while i < n
            invariant
                n == on_page@.len(),
                on_page == self.pages@[page.0 as int],
                0 <= i <= n,
                r@.len() == i,
                forall|j: int| 0 <= j < i ==> #[trigger] r@[j] == on_page@[j].index,
            decreases n - i,
        {
            r.push(on_page[i].index);
            i += 1;
        }
        r
    }

    /// The page on which the `staff`-th staff of the layout lies.
    pub fn get_page_of_staff(&self, staff: StaffIndex) -> (r: PageIndex)
        requires
            staff.0 < self.total_staves(),
            self.total_staves() <= usize::MAX,
        ensures
            r.0 < self.pages@.len(),
            staves_before(self.pages@, r.0 as int) <= staff.0 < staves_before(self.pages@, r.0 + 1),
    {
        let n = self.pages.len();
        let mut sum: usize = 0;
        let mut i: usize = 0;
        while i < n
            invariant
                n == self.pages@.len(),
                staff.0 < self.total_staves(),
                self.total_staves() <= usize::MAX,
                0 <= i <= n,
                sum == staves_before(self.pages@, i as int),
                sum <= staff.0,
            decreases n - i,
        {
            proof {
                lemma_staves_before_monotone(self.pages@, i + 1, self.pages@.len() as int);
            }
            sum += self.pages[i].len();
            if sum > staff.0 {
                return PageIndex(i);
            }
            i += 1;
        }
        assert(false);
        PageIndex(0)
    }
}

/// The staff at the center of a non-empty page lies on that page: the staff that
/// `get_center_staff` gives is one of the layout's staves, and the only page whose
/// staves hold it, which `get_page_of_staff` reports, is the page asked for.
pub proof fn lemma_center_staff_on_its_page<P>(layout: PageLayout<P>, page: int)
    requires
        0 <= page < layout.pages@.len(),
        layout.pages@[page]@.len() > 0,
    ensures
        ({
            let center = staves_before(layout.pages@, page) + layout.pages@[page]@.len() / 2;
            &&& 0 <= center < layout.total_staves()
            &&& staves_before(layout.pages@, page) <= center < staves_before(layout.pages@, page + 1)
            &&& forall|found: int|
                0 <= found < layout.pages@.len() && staves_before(layout.pages@, found) <= center
                    < #[trigger] staves_before(layout.pages@, found + 1) ==> found == page
        }),
{
    let center = staves_before(layout.pages@, page) + layout.pages@[page]@.len() / 2;
    lemma_staves_before_monotone(layout.pages@, 0, page);
    lemma_staves_before_monotone(layout.pages@, page + 1, layout.pages@.len() as int);
    assert forall|found: int|
        0 <= found < layout.pages@.len() && staves_before(layout.pages@, found) <= center
            < #[trigger] staves_before(layout.pages@, found + 1) implies found == page by {
        if found < page {
            lemma_staves_before_monotone(layout.pages@, found + 1, page);
        } else if found > page {
            lemma_staves_before_monotone(layout.pages@, page + 1, found);
        }
    }
}

/// Column starts for a layout with a fixed number of rows: a column starts at
/// every piece start and wherever the current column already holds
/// `row_count` staves. The list ends with the number of staves.
pub open spec fn fixed_height_starts(pieces: Set<usize>, row_count: nat, k: nat) -> (Seq<usize>, nat)
    decreases k,
{
    if k == 0 {
        (Seq::empty(), 0)
    } else {
        let (starts, length) = fixed_height_starts(pieces, row_count, (k - 1) as nat);
        let index = (k - 1) as usize;
        if pieces.contains(index) || length >= row_count {
            (starts.push(index), 1)
        } else {
            (starts, length + 1)
        }
    }
}

/// The most staves a column of a fixed-height layout holds: `row_count`, and at least one.
pub open spec fn column_capacity(row_count: nat) -> int {
    if row_count == 0 {
        1
    } else {
        row_count as int
    }
}

proof fn lemma_fixed_height_prefix(pieces: Set<usize>, row_count: nat, k: nat)
    requires
        pieces.contains(0),
        k >= 1,
        k <= usize::MAX,
    ensures
        ({
            let (starts, length) = fixed_height_starts(pieces, row_count, k);
            &&& starts.len() >= 1
            &&& starts[0] == 0
            &&& starts.last() + length == k
            &&& 1 <= length <= column_capacity(row_count)
            &&& forall|i: int| 0 <= i < starts.len() - 1 ==> 1 <= #[trigger] starts[i + 1] - starts[i]
                <= column_capacity(row_count)
            &&& forall|i: int|
                0 <= i < starts.len() - 1 && !pieces.contains(#[trigger] starts[i + 1]) ==> starts[i + 1]
                    - starts[i] == column_capacity(row_count)
            &&& forall|p: usize| pieces.contains(p) && p < k ==> #[trigger] starts.contains(p)
        }),
    decreases k,
{
    let (starts, length) = fixed_height_starts(pieces, row_count, k);
    if k == 1 {
        assert(fixed_height_starts(pieces, row_count, 0) == (Seq::<usize>::empty(), 0nat));
        assert(starts =~= seq![0usize]);
        assert forall|p: usize| pieces.contains(p) && p < k implies #[trigger] starts.contains(p) by {
            assert(starts[0] == p);
        }
    } else {
        let km = (k - 1) as nat;
        lemma_fixed_height_prefix(pieces, row_count, km);
        let (prev, prev_length) = fixed_height_starts(pieces, row_count, km);
        let index = km as usize;
        if pieces.contains(index) || prev_length >= row_count {
            assert(starts == prev.push(index));
            assert forall|i: int| 0 <= i < starts.len() - 1 implies 1 <= #[trigger] starts[i + 1] - starts[i]
                <= column_capacity(row_count) by {
                if i < prev.len() - 1 {
                    assert(starts[i] == prev[i] && starts[i + 1] == prev[i + 1]);
                }
            }
            assert forall|i: int|
                0 <= i < starts.len() - 1 && !pieces.contains(#[trigger] starts[i + 1]) implies starts[i + 1]
                    - starts[i] == column_capacity(row_count) by {
                if i < prev.len() - 1 {
                    assert(starts[i] == prev[i] && starts[i + 1] == prev[i + 1]);
                } else {
                    assert(starts[i] == prev.last() && starts[i + 1] == index);
                }
            }
            assert forall|p: usize| pieces.contains(p) && p < k implies #[trigger] starts.contains(p) by {
                if p < km {
                    assert(prev.contains(p));
                    let j = choose|j: int| 0 <= j < prev.len() && prev[j] == p;
                    assert(starts[j] == p);
                } else {
                    assert(starts[starts.len() - 1] == p);
                }
            }
        } else {
            assert(starts == prev);
        }
    }
}

/// The columns of a fixed-height layout (`fixed_height_column_starts`) cover the staves from
/// the first to the last, each column holds at least one and at most `row_count` staves (one
/// if `row_count` is 0), every piece starts a column, and a column ends early only where a
/// piece starts: every column but the last that is not followed by a piece start is full.
pub proof fn lemma_fixed_height_columns(pieces: Set<usize>, row_count: nat, n_staves: usize)
    requires
        pieces.contains(0),
        n_staves >= 1,
    ensures
        ({
            let columns = fixed_height_starts(pieces, row_count, n_staves as nat).0.push(n_staves);
            &&& column_capacity(row_count) == if row_count == 0 {
                1
            } else {
                row_count as int
            }
            &&& columns[0] == 0
            &&& columns.last() == n_staves
            &&& forall|i: int| 0 <= i < columns.len() - 1 ==> 1 <= #[trigger] columns[i + 1] - columns[i]
                <= column_capacity(row_count)
            &&& forall|i: int|
                0 <= i < columns.len() - 2 && !pieces.contains(#[trigger] columns[i + 1]) ==> columns[i + 1]
                    - columns[i] == column_capacity(row_count)
            &&& forall|p: usize| pieces.contains(p) && p < n_staves ==> #[trigger] columns.contains(p)
        }),
{
    lemma_fixed_height_prefix(pieces, row_count, n_staves as nat);
    let (starts, length) = fixed_height_starts(pieces, row_count, n_staves as nat);
    let columns = starts.push(n_staves);
    assert forall|i: int| 0 <= i < columns.len() - 1 implies 1 <= #[trigger] columns[i + 1] - columns[i]
        <= column_capacity(row_count) by {
        if i < starts.len() - 1 {
            assert(columns[i] == starts[i] && columns[i + 1] == starts[i + 1]);
        }
    }
    assert forall|i: int|
        0 <= i < columns.len() - 2 && !pieces.contains(#[trigger] columns[i + 1]) implies columns[i + 1]
            - columns[i] == column_capacity(row_count) by {
        assert(columns[i] == starts[i] && columns[i + 1] == starts[i + 1]);
    }
    assert forall|p: usize| pieces.contains(p) && p < n_staves implies #[trigger] columns.contains(p) by {
        assert(starts.contains(p));
        let j = choose|j: int| 0 <= j < starts.len() && starts[j] == p;
        assert(columns[j] == p);
    }
}

/// Where the columns of a fixed-height layout start, followed by the number of
/// staves.
pub fn fixed_height_column_starts(
    n_staves: usize,
    piece_starts: &BTreeMap<usize, String>,
    row_count: usize,
) -> (r: Vec<StaffIndex>)
    ensures
        r@.len() == fixed_height_starts(piece_starts@.dom(), row_count as nat, n_staves as nat).0.len() + 1,
        forall|i: int| 0 <= i < r@.len() - 1 ==> #[trigger] r@[i].0
            == fixed_height_starts(piece_starts@.dom(), row_count as nat, n_staves as nat).0[i],
        r@[r@.len() - 1].0 == n_staves,
{
    proof {
        lemma_usize_keys_ordered();
    }
    let ghost pieces = piece_starts@.dom();
    let mut starts: Vec<StaffIndex> = Vec::new();
    let mut page_length: usize = 0;
    let mut index: usize = 0;
    while index < n_staves
        invariant
            0 <= index <= n_staves,
            pieces == piece_starts@.dom(),
            page_length <= index,
            starts@.len() == fixed_height_starts(pieces, row_count as nat, index as nat).0.len(),
            forall|i: int| 0 <= i < starts@.len() ==> #[trigger] starts@[i].0
                == fixed_height_starts(pieces, row_count as nat, index as nat).0[i],
            page_length == fixed_height_starts(pieces, row_count as nat, index as nat).1,
        decreases n_staves - index,
    {
        if piece_starts.contains_key(&index) || page_length >= row_count {
            starts.push(StaffIndex(index));
            page_length = 0;
        }
        page_length += 1;
        index += 1;
    }
    starts.push(StaffIndex(n_staves));
    starts
}

/// Consecutive column starts as ranges: the column from each start up to the
/// next one.
pub fn column_ranges(starts: &Vec<StaffIndex>) -> (r: Vec<(StaffIndex, StaffIndex)>)
    ensures
        r@.len() == if starts@.len() == 0 { 0 } else { starts@.len() - 1 },
        forall|i: int| 0 <= i < r@.len() ==> #[trigger] r@[i] == (starts@[i], starts@[i + 1]),
{
    let mut r: Vec<(StaffIndex, StaffIndex)> = Vec::new();
    let n = starts.len();
    if n == 0 {
        return r;
    }
    let mut i: usize = 0;
    while i + 1 < n
        invariant
            n == starts@.len(),
            n > 0,
            0 <= i < n,
            r@.len() == i,
            forall|j: int| 0 <= j < i ==> #[trigger] r@[j] == (starts@[j], starts@[j + 1]),
        decreases n - i,
    {
        r.push((starts[i], starts[i + 1]));
        i += 1;
    }
    r
}

} // verus!
