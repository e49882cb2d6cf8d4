//! A song: its staves, where its pieces start and how it is cut into sections.
//!
//! A staff is one line of music on one page of the sheets. The library only reads
//! which page a staff is on and how staves on a page are ordered from top to
//! bottom; the geometry of a staff (its box on the page) is carried along as an
//! opaque value `G` that the application owns.
use vstd::prelude::*;
use std::collections::BTreeMap;
use std::ops::RangeInclusive;
use crate::keys::{increasing, key_order, lemma_key_order_exists, lemma_usize_keys_ordered, sorted_keys};

verus! {

broadcast use vstd::std_specs::btree::group_btree_axioms;

#[verifier::external_type_specification]
#[verifier::external_body]
pub struct ExUuid(uuid::Uuid);

/// Position of a staff within a song, counting from 0.
#[derive(Clone, Copy, Debug, PartialEq, Eq, Structural, PartialOrd, Ord, Hash)]
pub struct StaffIndex(pub usize);

/// Position of a page within a song's sheets, counting from 0.
#[derive(Clone, Copy, Debug, PartialEq, Eq, Structural, PartialOrd, Ord, Hash)]
pub struct PageIndex(pub usize);

/// What is known of a section that starts at some staff.
#[derive(Clone, Copy, Debug, PartialEq, Eq, Structural)]
pub struct SectionMeta {
    /// The section is a repetition: going back from its end jumps to its start.
    pub is_repetition: bool,
    /// The section's first staff also ends the previous section.
    pub section_end: bool,
}

impl Default for SectionMeta {
    fn default() -> (r: Self)
        ensures
            r == (SectionMeta { is_repetition: false, section_end: false }),
    {
        SectionMeta { is_repetition: false, section_end: false }
    }
}

/// One staff of a song.
#[derive(Clone, Copy, Debug)]
pub struct StaffV3<G> {
    /// The page the staff is on.
    pub page: PageIndex,
    /// The staff's top edge as an ordering key: on one page, a staff with a
    /// smaller key lies higher up.
    pub top: u64,
    /// The staff's box on its page, in the application's coordinates.
    pub geometry: G,
}

/// The current staff format.
pub type Staff<G> = StaffV3<G>;

impl<G> StaffV3<G> {
    /// The page the staff is on.
    pub fn page(&self) -> (r: PageIndex)
        ensures
            r == self.page,
    {
        self.page
    }
}

/// Why the metadata of a song was refused.
#[derive(Clone, Copy, Debug, PartialEq, Eq, Structural)]
pub enum InvalidSong {
    /// A song must have at least one staff.
    NoStaves,
    /// A staff lies on none of the song's pages.
    PageOutOfBounds { page: usize, n_pages: usize },
    /// A staff lies on an earlier page than the staff before it.
    PagesNotIncreasing { before: usize, after: usize },
    /// The first staff does not start a piece.
    NoPieceAtStart,
    /// The first staff does not start a section.
    NoSectionAtStart,
    /// A piece starts at a staff the song does not have.
    PieceStartOutOfBounds,
    /// A section starts at a staff the song does not have.
    SectionStartOutOfBounds,
}

/// The metadata of a song in the current file format.
pub struct SongMetaV4<G> {
    pub n_pages: usize,
    pub staves: Vec<StaffV3<G>>,
    /// The staves at which a piece starts, with the piece's name.
    pub piece_starts: BTreeMap<usize, String>,
    /// The staves at which a section starts.
    pub section_starts: BTreeMap<usize, SectionMeta>,
    /// A unique identifier for this song that is stable across file modifications
    pub song_uuid: uuid::Uuid,
    /// Effectively a random string generated on each save. Useful for caching
    pub version_uuid: uuid::Uuid,
    pub title: Option<String>,
    pub composer: Option<String>,
}

/// The metadata of a song.
pub type SongMeta<G> = SongMetaV4<G>;

/// The pages of a list of staves.
pub open spec fn pages_of<G>(staves: Seq<StaffV3<G>>) -> Seq<usize> {
    staves.map_values(|s: StaffV3<G>| s.page.0)
}

/// `i` is the first staff that lies on none of the pages `0..n`.
pub open spec fn is_first_beyond(pages: Seq<usize>, n: usize, i: int) -> bool {
    &&& 0 <= i < pages.len()
    &&& pages[i] >= n
    &&& forall|j: int| 0 <= j < i ==> pages[j] < n
}

/// `i` is the first staff whose successor lies on an earlier page.
pub open spec fn is_first_descent(pages: Seq<usize>, i: int) -> bool {
    &&& 0 <= i
    &&& i + 1 < pages.len()
    &&& pages[i] > pages[i + 1]
    &&& forall|j: int| 0 <= j < i ==> #[trigger] pages[j] <= pages[j + 1]
}

/// The pages of the staves never decrease.
pub open spec fn pages_increasing(pages: Seq<usize>) -> bool {
    forall|i: int, j: int| 0 <= i <= j < pages.len() ==> pages[i] <= pages[j]
}

/// What checking a song's metadata gives: the first rule it breaks, in the order
/// in which they are checked, or `Ok`. A staff on page `n_pages` or later is out of
/// bounds (pages are numbered from 0).
pub open spec fn song_check(
    n_pages: usize,
    pages: Seq<usize>,
    pieces: Set<usize>,
    sections: Set<usize>,
) -> Result<(), InvalidSong> {
    if pages.len() == 0 {
        Err(InvalidSong::NoStaves)
    } else if exists|i: int| is_first_beyond(pages, n_pages, i) {
        let i = choose|i: int| is_first_beyond(pages, n_pages, i);
        Err(InvalidSong::PageOutOfBounds { page: pages[i], n_pages })
    } else if exists|i: int| is_first_descent(pages, i) {
        let i = choose|i: int| is_first_descent(pages, i);
        Err(InvalidSong::PagesNotIncreasing { before: pages[i], after: pages[i + 1] })
    } else if !pieces.contains(0) {
        Err(InvalidSong::NoPieceAtStart)
    } else if !sections.contains(0) {
        Err(InvalidSong::NoSectionAtStart)
    } else if key_order(pieces).last() >= pages.len() {
        Err(InvalidSong::PieceStartOutOfBounds)
    } else if key_order(sections).last() >= pages.len() {
        Err(InvalidSong::SectionStartOutOfBounds)
    } else {
        Ok(())
    }
}

/// Number of staves on page `p` that end just before `hi` and reach down to no
/// lower than `lo`: the length of the run of staves on `p` that ends at `hi - 1`.
pub open spec fn run_on_page(pages: Seq<usize>, lo: int, hi: int, p: usize) -> nat
    decreases hi - lo,
{
    if hi <= lo {
        0
    } else if pages[hi - 1] == p {
        1 + run_on_page(pages, lo, hi - 1, p)
    } else {
        0
    }
}

/// `k` is the last key of `d` that is at most `i`.
pub open spec fn is_last_key_at_most(d: Set<usize>, i: int, k: usize) -> bool {
    &&& d.contains(k)
    &&& k <= i
    &&& forall|k2: usize| d.contains(k2) && k2 <= i ==> k2 <= k
}

/// The last key of `d` that is at most `i`.
pub open spec fn last_key_at_most(d: Set<usize>, i: int) -> usize {
    choose|k: usize| is_last_key_at_most(d, i, k)
}

/// The first staff that lies on none of the pages `0..n`, if any.
fn first_page_beyond<G>(staves: &Vec<StaffV3<G>>, n: usize) -> (r: Option<usize>)
    ensures
        match r {
            Some(i) => is_first_beyond(pages_of(staves@), n, i as int) && i == choose|c: int| is_first_beyond(pages_of(staves@), n, c),
            None => !exists|c: int| is_first_beyond(pages_of(staves@), n, c),
        },
{
    let ghost pages = pages_of(staves@);
    let len = staves.len();
    let mut i: usize = 0;
    while i < len
        invariant
            len == staves@.len(),
            pages == pages_of(staves@),
            0 <= i <= len,
            forall|j: int| 0 <= j < i ==> #[trigger] pages[j] < n,
        decreases len - i,
    {
        if staves[i].page.0 >= n {
            assert(is_first_beyond(pages, n, i as int));
            let ghost c = choose|c: int| is_first_beyond(pages, n, c);
            assert(c == i) by {
                if c < i {
                    assert(pages[c] < n);
                } else if c > i {
                    assert(pages[i as int] < n);
                }
            }
            return Some(i);
        }
        i += 1;
    }
    None
}

/// The first staff whose successor lies on an earlier page, if any.
fn first_descent<G>(staves: &Vec<StaffV3<G>>) -> (r: Option<usize>)
    ensures
        match r {
            Some(i) => is_first_descent(pages_of(staves@), i as int) && i == choose|c: int| is_first_descent(pages_of(staves@), c),
            None => !exists|c: int| is_first_descent(pages_of(staves@), c),
        },
{
    let ghost pages = pages_of(staves@);
    let len = staves.len();
    if len == 0 {
        return None;
    }
    let mut i: usize = 0;
    while i + 1 < len
        invariant
            len == staves@.len(),
            pages == pages_of(staves@),
            0 <= i < len,
            forall|j: int| 0 <= j < i ==> #[trigger] pages[j] <= pages[j + 1],
        decreases len - i,
    {
        if staves[i].page.0 > staves[i + 1].page.0 {
            assert(is_first_descent(pages, i as int));
            let ghost c = choose|c: int| is_first_descent(pages, c);
            assert(c == i) by {
                if c < i {
                    assert(pages[c] <= pages[c + 1]);
                } else if c > i {
                    assert(pages[i as int] <= pages[i + 1]);
                }
            }
            return Some(i);
        }
        i += 1;
    }
    None
}

proof fn lemma_no_descent_adjacent(pages: Seq<usize>, i: int)
    requires
        !exists|c: int| is_first_descent(pages, c),
        0 <= i,
    ensures
        forall|j: int| 0 <= j < i && j + 1 < pages.len() ==> #[trigger] pages[j] <= pages[j + 1],
    decreases i,
{
    if i > 0 {
        lemma_no_descent_adjacent(pages, i - 1);
        if i < pages.len() && pages[i - 1] > pages[i] {
            assert(is_first_descent(pages, i - 1));
        }
    }
}

proof fn lemma_adjacent_increasing(pages: Seq<usize>, i: int, j: int)
    requires
        forall|k: int| 0 <= k && k + 1 < pages.len() ==> #[trigger] pages[k] <= pages[k + 1],
        0 <= i <= j < pages.len(),
    ensures
        pages[i] <= pages[j],
    decreases j - i,
{
    if i < j {
        lemma_adjacent_increasing(pages, i, j - 1);
        assert(pages[j - 1] <= pages[j]);
    }
}

/// What metadata that passed the check guarantees: it has staves, they are
/// ordered by page and lie on the song's pages, the first
/// staff starts a piece and a section, and every piece and section starts at a
/// staff the song has.
pub proof fn lemma_well_formed_facts<G>(m: SongMetaV4<G>)
    requires
        m.well_formed(),
    ensures
        m.staves@.len() > 0,
        pages_increasing(m.pages()),
        forall|i: int| 0 <= i < m.staves@.len() ==> #[trigger] m.pages()[i] < m.n_pages,
        m.piece_starts@.dom().contains(0),
        m.section_starts@.dom().contains(0),
        forall|k: usize| #[trigger] m.piece_starts@.dom().contains(k) ==> k < m.staves@.len(),
        forall|k: usize| #[trigger] m.section_starts@.dom().contains(k) ==> k < m.staves@.len(),
{
    let pages = m.pages();
    assert(pages.len() == m.staves@.len());
    assert forall|i: int| 0 <= i < m.staves@.len() implies #[trigger] m.pages()[i] < m.n_pages by {
        if pages[i] >= m.n_pages {
            lemma_first_beyond_exists(pages, m.n_pages, i);
        }
    }
    lemma_no_descent_adjacent(pages, pages.len() as int);
    assert forall|i: int, j: int| 0 <= i <= j < pages.len() implies pages[i] <= pages[j] by {
        lemma_adjacent_increasing(pages, i, j);
    }
    lemma_key_order_exists(m.piece_starts@.dom());
    lemma_key_order_exists(m.section_starts@.dom());
    let pk = m.piece_keys();
    let sk = m.section_keys();
    assert forall|k: usize| #[trigger] m.piece_starts@.dom().contains(k) implies k < m.staves@.len() by {
        assert(pk.to_set().contains(k));
        let i = choose|i: int| 0 <= i < pk.len() && pk[i] == k;
        if i < pk.len() - 1 {
            assert(pk[i] < pk[pk.len() - 1]);
        }
    }
    assert forall|k: usize| #[trigger] m.section_starts@.dom().contains(k) implies k < m.staves@.len() by {
        assert(sk.to_set().contains(k));
        let i = choose|i: int| 0 <= i < sk.len() && sk[i] == k;
        if i < sk.len() - 1 {
            assert(sk[i] < sk[sk.len() - 1]);
        }
    }
}

proof fn lemma_first_beyond_exists(pages: Seq<usize>, n: usize, i: int)
    requires
        0 <= i < pages.len(),
        pages[i] >= n,
    ensures
        exists|c: int| is_first_beyond(pages, n, c),
    decreases i,
{
    if exists|j: int| 0 <= j < i && pages[j] >= n {
        let j = choose|j: int| 0 <= j < i && pages[j] >= n;
        lemma_first_beyond_exists(pages, n, j);
    } else {
        assert(is_first_beyond(pages, n, i));
    }
}

impl<G> SongMetaV4<G> {
    /// The pages of the song's staves.
    pub open spec fn pages(self) -> Seq<usize> {
        pages_of(self.staves@)
    }

    /// The staves that start a piece, in ascending order.
    pub open spec fn piece_keys(self) -> Seq<usize> {
        key_order(self.piece_starts@.dom())
    }

    /// The staves that start a section, in ascending order.
    pub open spec fn section_keys(self) -> Seq<usize> {
        key_order(self.section_starts@.dom())
    }

    /// The metadata obeys every rule of the file format.
    pub open spec fn well_formed(self) -> bool {
        song_check(
            self.n_pages,
            self.pages(),
            self.piece_starts@.dom(),
            self.section_starts@.dom(),
        ) == Ok::<(), InvalidSong>(())
    }

    /// The last staff of the `i`-th section.
    pub open spec fn section_end(self, i: int) -> int {
        let keys = self.section_keys();
        if i + 1 < keys.len() {
            if self.section_starts@[keys[i + 1]].section_end {
                keys[i + 1] as int
            } else {
                keys[i + 1] - 1
            }
        } else {
            self.staves@.len() - 1
        }
    }

    /// Check the rules of the file format on freshly read metadata. Pages are numbered
    /// from 0, so a staff must lie on a page below `n_pages`: one on page `n_pages` itself
    /// lies on no page of the song and is refused as out of bounds, as are later pages.
    pub fn check_invariants(&self) -> (r: Result<(), InvalidSong>)
        ensures
            r == song_check(
                self.n_pages,
                self.pages(),
                self.piece_starts@.dom(),
                self.section_starts@.dom(),
            ),
    {
        let n = self.staves.len();
        if n == 0 {
            return Err(InvalidSong::NoStaves);
        }
        match first_page_beyond(&self.staves, self.n_pages) {
            Some(i) => {
                return Err(InvalidSong::PageOutOfBounds { page: self.staves[i].page.0, n_pages: self.n_pages });
            },
            None => {},
        }
        match first_descent(&self.staves) {
            Some(i) => {
                return Err(InvalidSong::PagesNotIncreasing {
                    before: self.staves[i].page.0,
                    after: self.staves[i + 1].page.0,
                });
            },
            None => {},
        }
        proof {
            lemma_usize_keys_ordered();
        }
        if !self.piece_starts.contains_key(&0) {
            return Err(InvalidSong::NoPieceAtStart);
        }
        if !self.section_starts.contains_key(&0) {
            return Err(InvalidSong::NoSectionAtStart);
        }
        let piece_keys = sorted_keys(&self.piece_starts);
        let section_keys = sorted_keys(&self.section_starts);
        assert(piece_keys@.to_set().contains(0));
        assert(section_keys@.to_set().contains(0));
        if piece_keys[piece_keys.len() - 1] >= n {
            return Err(InvalidSong::PieceStartOutOfBounds);
        }
        if section_keys[section_keys.len() - 1] >= n {
            return Err(InvalidSong::SectionStartOutOfBounds);
        }
        Ok(())
    }

    /// The sections of the song in order: the staves each one spans, and whether
    /// it is a repetition.
    pub fn sections(&self) -> (r: Vec<(RangeInclusive<StaffIndex>, bool)>)
        requires
            self.staves@.len() > 0 || self.section_starts@.dom() =~= Set::empty(),
        ensures
            r@.len() == self.section_keys().len(),
            forall|i: int|
                #![trigger r@[i]]
                0 <= i < r@.len() ==> {
                    &&& r@[i].0@.start == StaffIndex(self.section_keys()[i])
                    &&& r@[i].0@.end.0 == self.section_end(i)
                    &&& !r@[i].0@.exhausted
                    &&& r@[i].1 == self.section_starts@[self.section_keys()[i]].is_repetition
                },
    {
        proof {
            lemma_usize_keys_ordered();
        }
        let keys = sorted_keys(&self.section_starts);
        let mut sections: Vec<(RangeInclusive<StaffIndex>, bool)> = Vec::new();
        let mut i: usize = 0;
        if keys.len() > 0 {
            assert(self.section_starts@.dom().contains(keys@[0]));
        }
        while i < keys.len()
            invariant
                keys@ == self.section_keys(),
                increasing(keys@),
                keys@.to_set() == self.section_starts@.dom(),
                keys@.len() > 0 ==> self.staves@.len() > 0,
                0 <= i <= keys@.len(),
                sections@.len() == i,
                forall|j: int|
                    #![trigger sections@[j]]
                    0 <= j < i ==> {
                        &&& sections@[j].0@.start == StaffIndex(self.section_keys()[j])
                        &&& sections@[j].0@.end.0 == self.section_end(j)
                        &&& !sections@[j].0@.exhausted
                        &&& sections@[j].1 == self.section_starts@[self.section_keys()[j]].is_repetition
                    },
            decreases keys@.len() - i,
        {
            let start = keys[i];
            assert(keys@.to_set().contains(start));
            let meta = *self.section_starts.get(&start).unwrap();
            let end = if i + 1 < keys.len() {
                let next = keys[i + 1];
                assert(keys@.to_set().contains(next));
                let next_meta = *self.section_starts.get(&next).unwrap();
                if next_meta.section_end {
                    next
                } else {
                    next - 1
                }
            } else {
                self.staves.len() - 1
            };
            sections.push((RangeInclusive::new(StaffIndex(start), StaffIndex(end)), meta.is_repetition));
            i += 1;
        }
        sections
    }

    /// Where a staff stands within its piece: the page counted from the piece's
    /// first page, and its position on that page counted from 0, that is, the number
    /// of staves of the piece before it on the same page.
    pub fn page_of_piece(&self, index: StaffIndex) -> (r: (PageIndex, StaffIndex))
        requires
            index.0 < self.staves@.len(),
            exists|k: usize| self.piece_starts@.dom().contains(k) && k <= index.0,
            self.pages()[last_key_at_most(self.piece_starts@.dom(), index.0 as int) as int]
                <= self.pages()[index.0 as int],
        ensures
            ({
                let start = last_key_at_most(self.piece_starts@.dom(), index.0 as int);
                &&& r.0.0 == self.pages()[index.0 as int] - self.pages()[start as int]
                &&& r.1.0 == run_on_page(self.pages(), start as int, index.0 as int, self.pages()[index.0 as int])
            }),
    {
        let ghost pages = self.pages();
        let ghost d = self.piece_starts@.dom();
        let n = self.staves.len();
        let keys = sorted_keys(&self.piece_starts);
        let n_keys = keys.len();
        let ghost w = choose|k: usize| d.contains(k) && k <= index.0;
        assert(keys@.to_set().contains(w));
        assert(keys@[0] <= w) by {
            let m = choose|m: int| 0 <= m < keys@.len() && keys@[m] == w;
            if m > 0 {
                assert(keys@[0] < keys@[m]);
            }
        }
        let mut j: usize = 0;
        while j + 1 < n_keys && keys[j + 1] <= index.0
            invariant
                n_keys == keys@.len(),
                increasing(keys@),
                keys@.to_set() == d,
                0 <= j < keys@.len(),
                keys@[j as int] <= index.0,
            decreases keys@.len() - j,
        {
            j += 1;
        }
        let start = keys[j];
        assert(is_last_key_at_most(d, index.0 as int, start)) by {
            assert(keys@.to_set().contains(start));
            assert forall|k2: usize| d.contains(k2) && k2 <= index.0 implies k2 <= start by {
                let m = choose|m: int| 0 <= m < keys@.len() && keys@[m] == k2;
                if m > j {
                    assert(keys@[j + 1] <= keys@[m]);
                }
            }
        }
        assert(start == last_key_at_most(d, index.0 as int)) by {
            let c = last_key_at_most(d, index.0 as int);
            assert(is_last_key_at_most(d, index.0 as int, c));
            assert(c <= start && start <= c);
        }
        let page = self.staves[index.0].page.0;
        let first_page = self.staves[start].page.0;
        let mut count: usize = 0;
        let mut k: usize = index.0;
        while k > start && self.staves[k - 1].page.0 == page
            invariant
                pages == self.pages(),
                n == self.staves@.len(),
                index.0 < n,
                index.0 < pages.len(),
                page == pages[index.0 as int],
                start <= k <= index.0,
                count + run_on_page(pages, start as int, k as int, page)
                    == run_on_page(pages, start as int, index.0 as int, page),
                count <= index.0 - k,
            decreases k,
        {
            count += 1;
            k -= 1;
        }
        (PageIndex(page - first_page), StaffIndex(count))
    }
}

/// Number of staves on page `page`.
pub open spec fn count_on_page<G>(staves: Seq<StaffV3<G>>, page: usize) -> nat
    decreases staves.len(),
{
    if staves.len() == 0 {
        0
    } else {
        count_on_page(staves.drop_last(), page) + if staves.last().page.0 == page {
            1nat
        } else {
            0nat
        }
    }
}

/// The staves with those on page `page` replaced, in order, by the `detected` ones.
pub open spec fn replaced_on_page<G>(staves: Seq<StaffV3<G>>, page: usize, detected: Seq<StaffV3<G>>) -> Seq<
    StaffV3<G>,
>
    decreases staves.len(),
{
    if staves.len() == 0 {
        staves
    } else {
        let rest = replaced_on_page(staves.drop_last(), page, detected);
        if staves.last().page.0 == page {
            rest.push(detected[count_on_page(staves.drop_last(), page) as int])
        } else {
            rest.push(staves.last())
        }
    }
}

/// The recognition found another number of staves on a page than the song has there.
#[derive(Clone, Copy, Debug, PartialEq, Eq, Structural)]
pub struct StaffCountMismatch {
    pub expected: usize,
    pub detected: usize,
}

proof fn lemma_count_on_page_bound<G>(staves: Seq<StaffV3<G>>, page: usize)
    ensures
        count_on_page(staves, page) <= staves.len(),
    decreases staves.len(),
{
    if staves.len() > 0 {
        lemma_count_on_page_bound(staves.drop_last(), page);
    }
}

proof fn lemma_replaced_len<G>(staves: Seq<StaffV3<G>>, page: usize, detected: Seq<StaffV3<G>>)
    ensures
        replaced_on_page(staves, page, detected).len() == staves.len(),
    decreases staves.len(),
{
    if staves.len() > 0 {
        lemma_replaced_len(staves.drop_last(), page, detected);
    }
}

proof fn lemma_nothing_on_page<G>(staves: Seq<StaffV3<G>>, page: usize, detected: Seq<StaffV3<G>>)
    requires
        count_on_page(staves, page) == 0,
    ensures
        replaced_on_page(staves, page, detected) == staves,
    decreases staves.len(),
{
    if staves.len() > 0 {
        lemma_nothing_on_page(staves.drop_last(), page, detected);
        assert(staves.drop_last().push(staves.last()) =~= staves);
    }
}

/// Replacing the staves of a page by staves detected on that same page keeps every staff on its
/// page, so the song passes the format's check exactly when it did before.
pub proof fn lemma_replacing_keeps_pages<G>(staves: Seq<StaffV3<G>>, page: usize, detected: Seq<StaffV3<G>>)
    requires
        forall|k: int| 0 <= k < detected.len() ==> (#[trigger] detected[k]).page.0 == page,
        count_on_page(staves, page) <= detected.len(),
    ensures
        pages_of(replaced_on_page(staves, page, detected)) == pages_of(staves),
    decreases staves.len(),
{
    if staves.len() > 0 {
        let d = staves.drop_last();
        let c = count_on_page(d, page);
        assert(count_on_page(staves, page) >= c);
        lemma_replacing_keeps_pages(d, page, detected);
        lemma_replaced_len(d, page, detected);
        let r = replaced_on_page(staves, page, detected);
        assert(pages_of(r) =~= pages_of(staves)) by {
            assert forall|i: int| 0 <= i < staves.len() implies #[trigger] pages_of(r)[i] == pages_of(staves)[i] by {
                if i < d.len() {
                    assert(r[i] == replaced_on_page(d, page, detected)[i]);
                    assert(pages_of(replaced_on_page(d, page, detected))[i] == pages_of(d)[i]);
                } else if staves.last().page.0 == page {
                    assert(detected[c as int].page.0 == page);
                }
            }
        }
    }
}

/// Replacing the staves of a page by detected staves (what `replace_page_staves` does on
/// success): the list keeps its length, every staff on another page stays as it is, and the
/// `k`-th staff of the page, counting from 0, becomes the `k`-th detected staff itself, with its
/// page, top edge and geometry.
pub proof fn lemma_replaced_staves<G>(staves: Seq<StaffV3<G>>, page: usize, detected: Seq<StaffV3<G>>)
    requires
        count_on_page(staves, page) <= detected.len(),
    ensures
        ({
            let r = replaced_on_page(staves, page, detected);
            &&& r.len() == staves.len()
            &&& forall|g: int| 0 <= g < staves.len() && staves[g].page.0 != page ==> #[trigger] r[g] == staves[g]
            &&& forall|g: int|
                0 <= g < staves.len() && staves[g].page.0 == page ==> #[trigger] r[g] == detected[count_on_page(
                    staves.take(g),
                    page,
                ) as int]
        }),
    decreases staves.len(),
{
    lemma_replaced_len(staves, page, detected);
    if staves.len() > 0 {
        let d = staves.drop_last();
        assert(count_on_page(staves, page) >= count_on_page(d, page));
        lemma_replaced_staves(d, page, detected);
        lemma_replaced_len(d, page, detected);
        let r = replaced_on_page(staves, page, detected);
        let rd = replaced_on_page(d, page, detected);
        assert forall|g: int| 0 <= g < staves.len() implies #[trigger] r[g] == (if staves[g].page.0 == page {
            detected[count_on_page(staves.take(g), page) as int]
        } else {
            staves[g]
        }) by {
            if g < d.len() {
                assert(r[g] == rd[g]);
                assert(staves[g] == d[g]);
                assert(staves.take(g) =~= d.take(g));
            } else {
                assert(staves.take(g) =~= d);
                assert(staves[g] == staves.last());
            }
        }
    }
}

impl<G: Copy> SongMetaV4<G> {
    /// Replaces the staves of page `page` by freshly detected ones, in order, keeping the pieces
    /// and sections at their staff positions. A page without staves is left alone; detected
    /// staves of another number than the page has are refused.
    pub fn replace_page_staves(&mut self, page: usize, detected: Vec<StaffV3<G>>) -> (r: Result<
        (),
        StaffCountMismatch,
    >)
        ensures
            ({
                let n = count_on_page(old(self).staves@, page);
                &&& r is Ok <==> (n == 0 || n == detected@.len())
                &&& r is Ok ==> final(self).staves@ == replaced_on_page(old(self).staves@, page, detected@)
                &&& r is Ok ==> final(self).staves@.len() == old(self).staves@.len()
                &&& r is Ok ==> forall|g: int|
                    0 <= g < old(self).staves@.len() ==> #[trigger] final(self).staves@[g] == if old(
                        self,
                    ).staves@[g].page.0 == page {
                        detected@[count_on_page(old(self).staves@.take(g), page) as int]
                    } else {
                        old(self).staves@[g]
                    }
                &&& r is Err ==> final(self).staves@ == old(self).staves@ && r == Err::<(), StaffCountMismatch>(
                    StaffCountMismatch { expected: n as usize, detected: detected@.len() as usize },
                )
            }),
            final(self).n_pages == old(self).n_pages,
            final(self).piece_starts@ == old(self).piece_starts@,
            final(self).section_starts@ == old(self).section_starts@,
            final(self).song_uuid == old(self).song_uuid,
            final(self).version_uuid == old(self).version_uuid,
            final(self).title == old(self).title,
            final(self).composer == old(self).composer,
    {
        let ghost orig = self.staves@;
        let mut n: usize = 0;
        let mut i: usize = 0;
        while i < self.staves.len()
            invariant
                self.staves@ == orig,
                i <= orig.len(),
                n == count_on_page(orig.subrange(0, i as int), page),
            decreases orig.len() - i,
        {
            proof {
                assert(orig.subrange(0, i + 1).drop_last() =~= orig.subrange(0, i as int));
                lemma_count_on_page_bound(orig.subrange(0, i as int), page);
            }
            if self.staves[i].page.0 == page {
                n = n + 1;
            }
            i = i + 1;
        }
        assert(orig.subrange(0, orig.len() as int) =~= orig);
        if n == 0 {
            proof {
                lemma_nothing_on_page(orig, page, detected@);
                lemma_replaced_staves(orig, page, detected@);
            }
            return Ok(());
        }
        if n != detected.len() {
            return Err(StaffCountMismatch { expected: n, detected: detected.len() });
        }
        let mut out: Vec<StaffV3<G>> = Vec::new();
        let mut k: usize = 0;
        let mut j: usize = 0;
        while j < self.staves.len()
            invariant
                self.staves@ == orig,
                j <= orig.len(),
                n == count_on_page(orig, page),
                n == detected@.len(),
                k == count_on_page(orig.subrange(0, j as int), page),
                out@ == replaced_on_page(orig.subrange(0, j as int), page, detected@),
            decreases orig.len() - j,
        {
            let ghost pre = orig.subrange(0, j as int);
            proof {
                assert(orig.subrange(0, j + 1).drop_last() =~= pre);
                lemma_count_prefix(orig, page, j as int);
            }
            let staff = self.staves[j];
            if staff.page.0 == page {
                out.push(detected[k]);
                k = k + 1;
            } else {
                out.push(staff);
            }
            j = j + 1;
        }
        assert(orig.subrange(0, orig.len() as int) =~= orig);
        proof {
            lemma_replaced_staves(orig, page, detected@);
        }
        self.staves = out;
        Ok(())
    }
}

proof fn lemma_count_prefix<G>(staves: Seq<StaffV3<G>>, page: usize, j: int)
    requires
        0 <= j < staves.len(),
    ensures
        staves[j].page.0 == page ==> count_on_page(staves.subrange(0, j), page) < count_on_page(staves, page),
        count_on_page(staves.subrange(0, j), page) <= count_on_page(staves, page),
    decreases staves.len(),
{
    if j + 1 < staves.len() {
        lemma_count_prefix(staves.drop_last(), page, j);
        assert(staves.drop_last().subrange(0, j) =~= staves.subrange(0, j));
    } else {
        assert(staves.drop_last() =~= staves.subrange(0, j));
    }
}

} // verus!
