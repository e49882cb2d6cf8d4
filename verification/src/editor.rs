//! The business logic of the editor: a song under construction, page by page.
//!
//! The editor keeps the staves of all pages in one list, page after page and
//! top to bottom on each page. Piece and section starts are attached to the
//! staves themselves, so that they move with them when staves are added or
//! removed. Whatever changes, the first staff always starts a piece and a
//! section.
use vstd::prelude::*;
use std::collections::BTreeMap;
use crate::collection::{PageIndex, SectionMeta, StaffIndex, StaffV3, SongMetaV4, lemma_well_formed_facts};
use crate::keys::lemma_usize_keys_ordered;
use crate::editor_laws::{
    lemma_first_marked_keeps_pages, lemma_without_page_consistent, lemma_add_staves_consistent,
    lemma_insert_consistent, lemma_remove_consistent, lemma_without_page_tops, lemma_add_staves_tops,
    lemma_insert_tops, lemma_remove_tops,
};

verus! {

broadcast use vstd::std_specs::btree::group_btree_axioms;

/// A staff together with what starts at it.
pub struct FullStaff<G> {
    pub staff: StaffV3<G>,
    /// The name of the piece that starts here, if one does.
    pub piece_start: Option<String>,
    /// The section that starts here, if one does.
    pub section_start: Option<SectionMeta>,
}

/// A song in the editor: its pages and its staves.
pub struct EditorSongFile<P, G> {
    pages: Vec<P>,
    staves: Vec<FullStaff<G>>,
    /// A unique identifier for this song that is stable across file modifications
    pub song_uuid: uuid::Uuid,
    pub song_name: String,
    pub song_composer: String,
}

/// Number of elements of `s` that satisfy `pred`.
pub open spec fn count_where<A>(s: Seq<A>, pred: spec_fn(A) -> bool) -> nat
    decreases s.len(),
{
    if s.len() == 0 {
        0
    } else {
        count_where(s.drop_last(), pred) + if pred(s.last()) { 1nat } else { 0nat }
    }
}

/// Counting one element further adds one exactly when it satisfies `pred`.
pub proof fn lemma_count_where_step<A>(s: Seq<A>, pred: spec_fn(A) -> bool, i: int)
    requires
        0 <= i < s.len(),
    ensures
        count_where(s.take(i + 1), pred) == count_where(s.take(i), pred) + if pred(s[i]) { 1nat } else { 0nat },
{
    assert(s.take(i + 1).drop_last() =~= s.take(i));
}

/// No more elements satisfy `pred` than there are.
pub proof fn lemma_count_where_bound<A>(s: Seq<A>, pred: spec_fn(A) -> bool)
    ensures
        count_where(s, pred) <= s.len(),
    decreases s.len(),
{
    if s.len() > 0 {
        lemma_count_where_bound(s.drop_last(), pred);
    }
}

/// The staff lies on page `p`.
pub open spec fn on_page<G>(p: usize) -> spec_fn(FullStaff<G>) -> bool {
    |f: FullStaff<G>| f.staff.page.0 == p
}

/// The staff lies on a page before `p`.
pub open spec fn before_page<G>(p: usize) -> spec_fn(FullStaff<G>) -> bool {
    |f: FullStaff<G>| f.staff.page.0 < p
}

/// The staff lies on page `p` or earlier.
pub open spec fn up_to_page<G>(p: usize) -> spec_fn(FullStaff<G>) -> bool {
    |f: FullStaff<G>| f.staff.page.0 <= p
}

/// A section starts at the staff.
pub open spec fn starts_section<G>() -> spec_fn(FullStaff<G>) -> bool {
    |f: FullStaff<G>| f.section_start is Some
}

/// `new` is `old` after the first staff was made to start a piece (keeping its
/// name, or with an empty name) and a plain section.
pub open spec fn first_marked<G>(old: Seq<FullStaff<G>>, new: Seq<FullStaff<G>>) -> bool {
    &&& new.len() == old.len()
    &&& forall|i: int| 0 < i < new.len() ==> #[trigger] new[i] == old[i]
    &&& new.len() > 0 ==> {
        &&& new[0].staff == old[0].staff
        &&& new[0].section_start == Some(SectionMeta { is_repetition: false, section_end: false })
        &&& new[0].piece_start is Some
        &&& old[0].piece_start is Some ==> new[0].piece_start == old[0].piece_start
        &&& old[0].piece_start is None ==> new[0].piece_start.unwrap()@ == Seq::<char>::empty()
    }
}

/// The first staff, if there is one, starts a piece and a section.
pub open spec fn starts_marked<G>(s: Seq<FullStaff<G>>) -> bool {
    s.len() > 0 ==> s[0].piece_start is Some && s[0].section_start is Some
}

/// The staves are ordered by page.
pub open spec fn pages_ascending<G>(s: Seq<FullStaff<G>>) -> bool {
    forall|i: int, j: int| 0 <= i <= j < s.len() ==> #[trigger] s[i].staff.page.0 <= #[trigger] s[j].staff.page.0
}

/// On each page the staves are ordered from top to bottom.
pub open spec fn tops_ascending<G>(s: Seq<FullStaff<G>>) -> bool {
    forall|i: int, j: int|
        0 <= i <= j < s.len() && #[trigger] s[i].staff.page.0 == #[trigger] s[j].staff.page.0
            ==> s[i].staff.top <= s[j].staff.top
}

/// On each page the staves of a song are ordered from top to bottom.
pub open spec fn song_tops_ascending<G>(s: Seq<StaffV3<G>>) -> bool {
    forall|i: int, j: int|
        0 <= i <= j < s.len() && #[trigger] s[i].page.0 == #[trigger] s[j].page.0 ==> s[i].top <= s[j].top
}

/// Every staff lies on a page before `n`.
pub open spec fn pages_below<G>(s: Seq<FullStaff<G>>, n: int) -> bool {
    forall|i: int| 0 <= i < s.len() ==> #[trigger] s[i].staff.page.0 < n
}

/// Make the first staff start a piece and a plain section.
fn mark_first_staff<G>(staves: &mut Vec<FullStaff<G>>)
    ensures
        first_marked(old(staves)@, final(staves)@),
        starts_marked(final(staves)@),
{
    if staves.len() > 0 {
        let first = staves.remove(0);
        let piece = match first.piece_start {
            Some(name) => Some(name),
            None => Some(String::new()),
        };
        staves.insert(
            0,
            FullStaff { staff: first.staff, piece_start: piece, section_start: Some(SectionMeta::default()) },
        );
        assert(forall|i: int| 0 < i < staves@.len() ==> #[trigger] staves@[i] == old(staves)@[i]);
    }
}

/// A staff moved up by one page, for when the page before it is removed.
pub open spec fn shifted_up<G>(f: FullStaff<G>) -> FullStaff<G> {
    FullStaff {
        staff: StaffV3 {
            page: PageIndex((f.staff.page.0 - 1) as usize),
            top: f.staff.top,
            geometry: f.staff.geometry,
        },
        piece_start: f.piece_start,
        section_start: f.section_start,
    }
}

/// The staves after page `p` was removed: those on `p` are gone, and those on
/// later pages move up by one page.
pub open spec fn without_page<G>(s: Seq<FullStaff<G>>, p: usize) -> Seq<FullStaff<G>>
    decreases s.len(),
{
    if s.len() == 0 {
        Seq::empty()
    } else {
        let rest = without_page(s.drop_last(), p);
        let f = s.last();
        if f.staff.page.0 == p {
            rest
        } else if f.staff.page.0 > p {
            rest.push(shifted_up(f))
        } else {
            rest.push(f)
        }
    }
}

/// A staff that starts nothing.
pub open spec fn plain<G>(s: StaffV3<G>) -> FullStaff<G> {
    FullStaff { staff: s, piece_start: None, section_start: None }
}

/// `k` is where the staves of pages after `p` begin: the first staff on a later
/// page, or the end of the list.
pub open spec fn is_first_after_page<G>(s: Seq<FullStaff<G>>, p: usize, k: int) -> bool {
    &&& 0 <= k <= s.len()
    &&& k < s.len() ==> s[k].staff.page.0 > p
    &&& forall|j: int| 0 <= j < k ==> #[trigger] s[j].staff.page.0 <= p
}

/// Where the staves of pages after `p` begin.
pub open spec fn first_after_page<G>(s: Seq<FullStaff<G>>, p: usize) -> int {
    choose|k: int| is_first_after_page(s, p, k)
}

/// `g` is the first staff on page `p` that lies lower than `top`.
pub open spec fn is_first_below<G>(s: Seq<FullStaff<G>>, p: usize, top: u64, g: int) -> bool {
    &&& 0 <= g < s.len()
    &&& s[g].staff.page.0 == p
    &&& s[g].staff.top > top
    &&& forall|j: int|
        0 <= j < g ==> !(#[trigger] s[j].staff.page.0 == p && s[j].staff.top > top)
}

/// Where a staff on page `p` with top edge `top` goes: its position on the page,
/// and its position in the whole list. It goes before the first staff of the page
/// that lies lower, or else after the last staff of the page.
pub open spec fn insert_position<G>(s: Seq<FullStaff<G>>, p: usize, top: u64) -> (int, int) {
    if exists|g: int| is_first_below(s, p, top, g) {
        let g = choose|g: int| is_first_below(s, p, top, g);
        (count_where(s.take(g), on_page::<G>(p)) as int, g)
    } else {
        (count_where(s, on_page::<G>(p)) as int, count_where(s, up_to_page::<G>(p)) as int)
    }
}

/// `g` is the `n`-th staff (counting from 0) of page `p`.
pub open spec fn is_nth_on_page<G>(s: Seq<FullStaff<G>>, p: usize, n: int, g: int) -> bool {
    &&& 0 <= g < s.len()
    &&& s[g].staff.page.0 == p
    &&& count_where(s.take(g), on_page::<G>(p)) == n
}

/// The position in the whole list of the `n`-th staff of page `p`.
pub open spec fn nth_on_page<G>(s: Seq<FullStaff<G>>, p: usize, n: int) -> int {
    choose|g: int| is_nth_on_page(s, p, n, g)
}

/// Counting over a longer prefix never gives less.
pub proof fn lemma_count_where_monotone<A>(s: Seq<A>, pred: spec_fn(A) -> bool, a: int, b: int)
    requires
        0 <= a <= b <= s.len(),
    ensures
        count_where(s.take(a), pred) <= count_where(s.take(b), pred),
    decreases b - a,
{
    if a < b {
        lemma_count_where_monotone(s, pred, a, b - 1);
        lemma_count_where_step(s, pred, b - 1);
    }
}

/// The `n`-th staff of a page is only one staff.
pub proof fn lemma_nth_on_page_unique<G>(s: Seq<FullStaff<G>>, p: usize, n: int, g1: int, g2: int)
    requires
        is_nth_on_page(s, p, n, g1),
        is_nth_on_page(s, p, n, g2),
    ensures
        g1 == g2,
{
    if g1 < g2 {
        lemma_count_where_step(s, on_page::<G>(p), g1);
        lemma_count_where_monotone(s, on_page::<G>(p), g1 + 1, g2);
    } else if g2 < g1 {
        lemma_count_where_step(s, on_page::<G>(p), g2);
        lemma_count_where_monotone(s, on_page::<G>(p), g2 + 1, g1);
    }
}

/// Position of the `n`-th staff of page `p`.
fn find_nth_on_page<G>(staves: &Vec<FullStaff<G>>, p: usize, n: usize) -> (g: usize)
    requires
        n < count_where(staves@, on_page::<G>(p)),
    ensures
        is_nth_on_page(staves@, p, n as int, g as int),
        g == nth_on_page(staves@, p, n as int),
{
    let ghost s = staves@;
    let ghost pred = on_page::<G>(p);
    let len = staves.len();
    let mut count: usize = 0;
    let mut i: usize = 0;
    while i < len
        invariant
            len == s.len(),
            s == staves@,
            pred == on_page::<G>(p),
            n < count_where(s, pred),
            0 <= i <= len,
            count == count_where(s.take(i as int), pred),
            count <= n,
        decreases len - i,
    {
        proof {
            lemma_count_where_step(s, pred, i as int);
        }
        if staves[i].staff.page.0 == p {
            if count == n {
                assert(is_nth_on_page(s, p, n as int, i as int));
                proof {
                    let c = nth_on_page(s, p, n as int);
                    lemma_nth_on_page_unique(s, p, n as int, c, i as int);
                }
                return i;
            }
            count += 1;
        }
        i += 1;
    }
    assert(s.take(len as int) =~= s);
    assert(false);
    0
}

/// Insert a staff on its page below every staff that lies higher, and return its
/// position on the page.
fn insert_by_top<G>(staves: &mut Vec<FullStaff<G>>, full: FullStaff<G>) -> (r: usize)
    ensures
        ({
            let pos = insert_position(old(staves)@, full.staff.page.0, full.staff.top);
            &&& r == pos.0
            &&& 0 <= pos.1 <= old(staves)@.len()
            &&& final(staves)@ == old(staves)@.insert(pos.1, full)
        }),
{
    let ghost s = staves@;
    let p = full.staff.page.0;
    let top = full.staff.top;
    let ghost on = on_page::<G>(p);
    let ghost upto = up_to_page::<G>(p);
    let len = staves.len();
    let mut on_count: usize = 0;
    let mut upto_count: usize = 0;
    let mut i: usize = 0;
    while i < len
        invariant
            len == s.len(),
            s == staves@,
            s == old(staves)@,
            p == full.staff.page.0,
            top == full.staff.top,
            on == on_page::<G>(p),
            upto == up_to_page::<G>(p),
            0 <= i <= len,
            on_count == count_where(s.take(i as int), on),
            upto_count == count_where(s.take(i as int), upto),
            forall|j: int| 0 <= j < i ==> !(#[trigger] s[j].staff.page.0 == p && s[j].staff.top > top),
        decreases len - i,
    {
        proof {
            lemma_count_where_step(s, on, i as int);
            lemma_count_where_step(s, upto, i as int);
            lemma_count_where_bound(s.take(i as int), on);
            lemma_count_where_bound(s.take(i as int), upto);
        }
        if staves[i].staff.page.0 == p && staves[i].staff.top > top {
            assert(is_first_below(s, p, top, i as int));
            let ghost c = choose|g: int| is_first_below(s, p, top, g);
            assert(c == i) by {
                if c < i {
                    assert(!(s[c].staff.page.0 == p && s[c].staff.top > top));
                } else if c > i {
                    assert(!(s[i as int].staff.page.0 == p && s[i as int].staff.top > top));
                }
            }
            assert(insert_position(s, p, top) == (count_where(s.take(i as int), on) as int, i as int));
            staves.insert(i, full);
            return on_count;
        }
        if staves[i].staff.page.0 == p {
            on_count += 1;
        }
        if staves[i].staff.page.0 <= p {
            upto_count += 1;
        }
        i += 1;
    }
    assert(s.take(len as int) =~= s);
    assert(!exists|g: int| is_first_below(s, p, top, g));
    proof {
        lemma_count_where_bound(s, upto);
    }
    staves.insert(upto_count, full);
    on_count
}

/// Position where the staves of the pages after `p` begin.
fn find_first_after_page<G>(staves: &Vec<FullStaff<G>>, p: usize) -> (k: usize)
    ensures
        is_first_after_page(staves@, p, k as int),
        k == first_after_page(staves@, p),
{
    let ghost s = staves@;
    let len = staves.len();
    let mut i: usize = 0;
    while i < len && staves[i].staff.page.0 <= p
        invariant
            len == s.len(),
            s == staves@,
            0 <= i <= len,
            forall|j: int| 0 <= j < i ==> #[trigger] s[j].staff.page.0 <= p,
        decreases len - i,
    {
        i += 1;
    }
    assert(is_first_after_page(s, p, i as int));
    proof {
        let c = first_after_page(s, p);
        assert(is_first_after_page(s, p, c));
        assert(c == i) by {
            if c < i {
                assert(s[c].staff.page.0 <= p);
            } else if c > i {
                assert(s[i as int].staff.page.0 <= p);
            }
        }
    }
    i
}

/// The `i`-th staff of a song as the editor holds it.
pub open spec fn loaded_staff<G>(song: SongMetaV4<G>, i: int) -> FullStaff<G> {
    FullStaff {
        staff: song.staves@[i],
        piece_start: song.piece_starts@.get(i as usize),
        section_start: song.section_starts@.get(i as usize),
    }
}

/// The text of an optional string, empty where there is none.
pub open spec fn text_or_empty(s: Option<String>) -> Seq<char> {
    match s {
        Some(t) => t@,
        None => Seq::empty(),
    }
}

/// The staff numbers, among the first `n`, whose staff satisfies `pred`.
pub open spec fn positions_where<G>(s: Seq<FullStaff<G>>, pred: spec_fn(FullStaff<G>) -> bool) -> Set<usize> {
    Set::new(|i: usize| i < s.len() && pred(s[i as int]))
}

/// A piece starts at the staff.
pub open spec fn starts_piece<G>() -> spec_fn(FullStaff<G>) -> bool {
    |f: FullStaff<G>| f.piece_start is Some
}

/// What the panel of the editor shows for the selected staff: for each control
/// whether it can be used (`sensitive`) and whether it is checked (`active`).
pub struct StaffControls {
    pub piece_start_sensitive: bool,
    pub piece_start_active: bool,
    pub piece_name: String,
    pub piece_name_sensitive: bool,
    pub section_start_sensitive: bool,
    pub section_start_active: bool,
    pub section_repetition_sensitive: bool,
    pub section_repetition_active: bool,
    pub section_end_sensitive: bool,
    pub section_end_active: bool,
}

impl<P, G: Copy> EditorSongFile<P, G> {
    /// The pages of the song.
    pub closed spec fn page_list(&self) -> Seq<P> {
        self.pages@
    }

    /// The staves of the song with what starts at them.
    pub closed spec fn staff_list(&self) -> Seq<FullStaff<G>> {
        self.staves@
    }

    /// The song's identifier.
    pub closed spec fn uuid(&self) -> uuid::Uuid {
        self.song_uuid
    }

    /// The song's name.
    pub closed spec fn name(&self) -> Seq<char> {
        self.song_name@
    }

    /// The song's composer.
    pub closed spec fn composer(&self) -> Seq<char> {
        self.song_composer@
    }

    /// The editor holds exactly the staves, starts, names and identifier of `song`.
    pub open spec fn loaded_from(&self, song: SongMetaV4<G>) -> bool {
        &&& self.staff_list().len() == song.staves@.len()
        &&& forall|i: int|
            0 <= i < song.staves@.len() ==> #[trigger] self.staff_list()[i] == loaded_staff(song, i)
        &&& self.name() == text_or_empty(song.title)
        &&& self.composer() == text_or_empty(song.composer)
        &&& self.uuid() == song.song_uuid
    }

    /// `meta` is what saving the editor's song writes, apart from the version
    /// identifier, which is fresh on each save.
    pub open spec fn saved_as(&self, meta: SongMetaV4<G>) -> bool {
        &&& meta.n_pages == self.page_list().len()
        &&& meta.staves@ == self.plain_staves()
        &&& meta.piece_starts@.dom() == positions_where(self.staff_list(), starts_piece::<G>())
        &&& forall|i: usize|
            #[trigger] meta.piece_starts@.dom().contains(i) ==> Some(meta.piece_starts@[i])
                == self.staff_list()[i as int].piece_start
        &&& meta.section_starts@.dom() == positions_where(self.staff_list(), starts_section::<G>())
        &&& forall|i: usize|
            #[trigger] meta.section_starts@.dom().contains(i) ==> Some(meta.section_starts@[i])
                == self.staff_list()[i as int].section_start
        &&& meta.song_uuid == self.uuid()
        &&& text_or_empty(meta.title) == self.name()
        &&& (meta.title is Some <==> self.name().len() > 0)
        &&& text_or_empty(meta.composer) == self.composer()
        &&& (meta.composer is Some <==> self.composer().len() > 0)
    }

    /// The editor's invariant: the first staff starts a piece and a section, the
    /// staves are ordered by page and on each page from top to bottom, and every
    /// staff lies on one of the pages.
    pub open spec fn is_consistent(&self) -> bool {
        &&& starts_marked(self.staff_list())
        &&& pages_ascending(self.staff_list())
        &&& tops_ascending(self.staff_list())
        &&& pages_below(self.staff_list(), self.page_list().len() as int)
    }

    /// The staves of the song without what starts at them.
    pub open spec fn plain_staves(&self) -> Seq<StaffV3<G>> {
        self.staff_list().map_values(|f: FullStaff<G>| f.staff)
    }

    /// An empty song with a fresh identifier.
    pub fn new() -> (r: Self)
        ensures
            r.page_list().len() == 0,
            r.staff_list().len() == 0,
            r.name() == Seq::<char>::empty(),
            r.composer() == Seq::<char>::empty(),
    {
        EditorSongFile {
            pages: Vec::new(),
            staves: Vec::new(),
            song_uuid: crate::outside::new_uuid(),
            song_name: String::new(),
            song_composer: String::new(),
        }
    }

    /// The staves of the song.
    pub fn get_staves(&self) -> (r: Vec<StaffV3<G>>)
        ensures
            r@ == self.plain_staves(),
    {
        let mut r: Vec<StaffV3<G>> = Vec::new();
        let n = self.staves.len();
        let mut i: usize = 0;
        while i < n
            invariant
                n == self.staff_list().len(),
                0 <= i <= n,
                r@ == self.plain_staves().take(i as int),
            decreases n - i,
        {
            r.push(self.staves[i].staff);
            assert(r@ =~= self.plain_staves().take(i + 1));
            i += 1;
        }
        assert(r@ =~= self.plain_staves());
        r
    }

    /// A page and the staves on it, top to bottom.
    pub fn get_page(&self, page: PageIndex) -> (r: (&P, Vec<StaffV3<G>>))
        requires
            page.0 < self.page_list().len(),
        ensures
            *r.0 == self.page_list()[page.0 as int],
            r.1@ == self.staff_list().filter(on_page(page.0)).map_values(|f: FullStaff<G>| f.staff),
    {
        let ghost pred = on_page::<G>(page.0);
        let mut r: Vec<StaffV3<G>> = Vec::new();
        let n = self.staves.len();
        let mut i: usize = 0;
        while i < n
            invariant
                n == self.staff_list().len(),
                0 <= i <= n,
                pred == on_page::<G>(page.0),
                r@ == self.staff_list().take(i as int).filter(pred).map_values(|f: FullStaff<G>| f.staff),
            decreases n - i,
        {
            proof {
                let s = self.staff_list();
                assert(s.take(i + 1) =~= s.take(i as int).push(s[i as int]));
                s.take(i as int).lemma_filter_push(s[i as int], pred);
            }
            if self.staves[i].staff.page.0 == page.0 {
                r.push(self.staves[i].staff);
            }
            proof {
                let s = self.staff_list();
                let t = s.take(i + 1).filter(pred).map_values(|f: FullStaff<G>| f.staff);
                assert(r@ =~= t);
            }
            i += 1;
        }
        assert(self.staff_list().take(n as int) =~= self.staff_list());
        (&self.pages[page.0], r)
    }

    /// All pages of the song.
    pub fn get_pages(&self) -> (r: &Vec<P>)
        ensures
            r@ == self.page_list(),
    {
        &self.pages
    }

    /// The name of the piece that starts at a staff, if one does.
    pub fn piece_start(&self, staff: StaffIndex) -> (r: Option<&String>)
        requires
            staff.0 < self.staff_list().len(),
        ensures
            match r {
                Some(name) => self.staff_list()[staff.0 as int].piece_start == Some(*name),
                None => self.staff_list()[staff.0 as int].piece_start is None,
            },
    {
        self.staves[staff.0].piece_start.as_ref()
    }

    /// The section that starts at a staff, if one does.
    pub fn section_start(&self, staff: StaffIndex) -> (r: Option<SectionMeta>)
        requires
            staff.0 < self.staff_list().len(),
        ensures
            r == self.staff_list()[staff.0 as int].section_start,
    {
        self.staves[staff.0].section_start
    }

    /// Number of staves on the pages before `page`.
    pub fn count_staves_before(&self, page: PageIndex) -> (r: usize)
        ensures
            r == count_where(self.staff_list(), before_page::<G>(page.0)),
    {
        let ghost pred = before_page::<G>(page.0);
        let n = self.staves.len();
        let mut count: usize = 0;
        let mut i: usize = 0;
        while i < n
            invariant
                n == self.staff_list().len(),
                0 <= i <= n,
                pred == before_page::<G>(page.0),
                count == count_where(self.staff_list().take(i as int), pred),
            decreases n - i,
        {
            proof {
                lemma_count_where_step(self.staff_list(), pred, i as int);
                lemma_count_where_bound(self.staff_list().take(i as int), pred);
            }
            if self.staves[i].staff.page.0 < page.0 {
                count += 1;
            }
            i += 1;
        }
        assert(self.staff_list().take(n as int) =~= self.staff_list());
        count
    }

    /// Number of sections that start at or before a staff.
    pub fn count_sections_until(&self, staff: StaffIndex) -> (r: usize)
        requires
            staff.0 < self.staff_list().len(),
        ensures
            r == count_where(self.staff_list().take(staff.0 + 1), starts_section::<G>()),
    {
        let ghost pred = starts_section::<G>();
        let n = self.staves.len();
        let mut count: usize = 0;
        let mut i: usize = 0;
        while i <= staff.0
            invariant
                n == self.staff_list().len(),
                staff.0 < n,
                0 <= i <= staff.0 + 1,
                pred == starts_section::<G>(),
                count == count_where(self.staff_list().take(i as int), pred),
            decreases staff.0 + 1 - i,
        {
            proof {
                lemma_count_where_step(self.staff_list(), pred, i as int);
                lemma_count_where_bound(self.staff_list().take(i as int), pred);
            }
            if self.staves[i].section_start.is_some() {
                count += 1;
            }
            i += 1;
        }
        count
    }

    /// Add a page at the end.
    pub fn add_page(&mut self, page: P)
        ensures
            final(self).page_list() == old(self).page_list().push(page),
            final(self).staff_list() == old(self).staff_list(),
            final(self).uuid() == old(self).uuid(),
            final(self).name() == old(self).name(),
            final(self).composer() == old(self).composer(),
            old(self).is_consistent() ==> final(self).is_consistent(),
    {
        self.pages.push(page);
        assert(pages_below(self.staves@, self.pages@.len() as int) <== pages_below(
            old(self).staves@,
            old(self).pages@.len() as int,
        ));
    }

    /// Remove a page together with its staves; the staves of later pages move up
    /// by one page.
    pub fn remove_page(&mut self, page_index: PageIndex)
        requires
            page_index.0 < old(self).page_list().len(),
        ensures
            final(self).page_list() == old(self).page_list().remove(page_index.0 as int),
            first_marked(without_page(old(self).staff_list(), page_index.0), final(self).staff_list()),
            final(self).uuid() == old(self).uuid(),
            final(self).name() == old(self).name(),
            final(self).composer() == old(self).composer(),
            old(self).is_consistent() ==> final(self).is_consistent(),
    {
        let p = page_index.0;
        self.pages.remove(p);
        let mut rest: Vec<FullStaff<G>> = Vec::new();
        std::mem::swap(&mut rest, &mut self.staves);
        let ghost orig = rest@;
        let mut kept: Vec<FullStaff<G>> = Vec::new();
        let ghost mut done: int = 0;
        while rest.len() > 0
            invariant
                0 <= done <= orig.len(),
                rest@ == orig.subrange(done, orig.len() as int),
                kept@ == without_page(orig.take(done), p),
            decreases rest@.len(),
        {
            let f = rest.remove(0);
            proof {
                assert(f == orig[done]);
                assert(orig.take(done + 1).drop_last() =~= orig.take(done));
                assert(orig.take(done + 1).last() == orig[done]);
            }
            if f.staff.page.0 > p {
                let moved = FullStaff {
                    staff: StaffV3 { page: PageIndex(f.staff.page.0 - 1), top: f.staff.top, geometry: f.staff.geometry },
                    piece_start: f.piece_start,
                    section_start: f.section_start,
                };
                kept.push(moved);
            } else if f.staff.page.0 < p {
                kept.push(f);
            }
            proof {
                done = done + 1;
                assert(rest@ =~= orig.subrange(done, orig.len() as int));
            }
        }
        assert(orig.take(done) =~= orig);
        let ghost before_mark = kept@;
        mark_first_staff(&mut kept);
        proof {
            let n = old(self).pages@.len() as int;
            if old(self).is_consistent() {
                lemma_without_page_consistent(orig, p, n);
                lemma_without_page_tops(orig, p);
            }
            lemma_first_marked_keeps_pages(before_mark, kept@, n - 1);
        }
        self.staves = kept;
    }

    /// Add staves at the end of a page. They must already be ordered from top to
    /// bottom, and lie no higher than the staves already on the page, for the page
    /// to stay ordered.
    pub fn add_staves(&mut self, page_index: PageIndex, staves: Vec<StaffV3<G>>)
        requires
            forall|i: int| 0 <= i < staves@.len() ==> (#[trigger] staves@[i]).page == page_index,
        ensures
            ({
                let s = old(self).staff_list();
                let k = first_after_page(s, page_index.0);
                first_marked(
                    s.take(k) + staves@.map_values(|st: StaffV3<G>| plain(st)) + s.skip(k),
                    final(self).staff_list(),
                )
            }),
            final(self).page_list() == old(self).page_list(),
            final(self).uuid() == old(self).uuid(),
            final(self).name() == old(self).name(),
            final(self).composer() == old(self).composer(),
            old(self).is_consistent() && page_index.0 < old(self).page_list().len() && song_tops_ascending(staves@)
                && (forall|i: int, j: int|
                0 <= i < old(self).staff_list().len() && 0 <= j < staves@.len()
                    && #[trigger] old(self).staff_list()[i].staff.page == page_index ==> old(
                    self,
                ).staff_list()[i].staff.top <= #[trigger] staves@[j].top) ==> final(self).is_consistent(),
    {
        let ghost s = self.staves@;
        let ghost added = staves@.map_values(|st: StaffV3<G>| plain(st));
        let k = find_first_after_page(&self.staves, page_index.0);
        let mut new_staves = staves;
        let ghost all_new = new_staves@;
        assert(all_new.len() <= usize::MAX) by {
            assert(new_staves.len() == all_new.len());
        }
        let mut j: usize = 0;
        while new_staves.len() > 0
            invariant
                0 <= k <= s.len(),
                added == all_new.map_values(|st: StaffV3<G>| plain(st)),
                all_new.len() <= usize::MAX,
                0 <= j <= all_new.len(),
                new_staves@ == all_new.subrange(j as int, all_new.len() as int),
                self.staves@ == s.take(k as int) + added.take(j as int) + s.skip(k as int),
                self.pages@ == old(self).pages@,
                self.song_uuid == old(self).song_uuid,
                self.song_name == old(self).song_name,
                self.song_composer == old(self).song_composer,
            decreases new_staves@.len(),
        {
            let st = new_staves.remove(0);
            assert(st == all_new[j as int]);
            let cur_len = self.staves.len();
            assert(cur_len == s.len() + j);
            self.staves.insert(k + j, FullStaff { staff: st, piece_start: None, section_start: None });
            assert(self.staves@ =~= s.take(k as int) + added.take(j + 1) + s.skip(k as int));
            j += 1;
            assert(new_staves@ =~= all_new.subrange(j as int, all_new.len() as int));
        }
        assert(added.take(j as int) =~= added);
        let ghost before_mark = self.staves@;
        mark_first_staff(&mut self.staves);
        proof {
            let n = self.pages@.len() as int;
            if old(self).is_consistent() && page_index.0 < n {
                assert forall|i: int| 0 <= i < added.len() implies (#[trigger] added[i]).staff.page.0 == page_index.0 by {
                    assert(added[i] == plain(all_new[i]));
                }
                lemma_add_staves_consistent(s, page_index.0, added, n);
                if song_tops_ascending(all_new) && (forall|i: int, j: int|
                    0 <= i < s.len() && 0 <= j < all_new.len() && #[trigger] s[i].staff.page == page_index
                        ==> s[i].staff.top <= #[trigger] all_new[j].top) {
                    assert forall|i: int, j: int| 0 <= i <= j < added.len() implies #[trigger] added[i].staff.top
                        <= #[trigger] added[j].staff.top by {
                        assert(added[i] == plain(all_new[i]) && added[j] == plain(all_new[j]));
                    }
                    assert forall|i: int, j: int| 0 <= i < s.len() && 0 <= j < added.len() && #[trigger] s[i].staff.page.0
                        == page_index.0 implies s[i].staff.top <= #[trigger] added[j].staff.top by {
                        assert(added[j] == plain(all_new[j]));
                        assert(s[i].staff.page == page_index);
                    }
                    lemma_add_staves_tops(s, page_index.0, added);
                }
            }
            lemma_first_marked_keeps_pages(before_mark, self.staves@, n);
        }
    }

    /// Insert a single staff on its page, keeping the page ordered from top to
    /// bottom. Returns its position on the page.
    pub fn add_staff(&mut self, page_index: PageIndex, staff: StaffV3<G>) -> (r: usize)
        requires
            staff.page == page_index,
        ensures
            ({
                let s = old(self).staff_list();
                let pos = insert_position(s, page_index.0, staff.top);
                &&& r == pos.0
                &&& first_marked(s.insert(pos.1, plain(staff)), final(self).staff_list())
            }),
            final(self).page_list() == old(self).page_list(),
            final(self).uuid() == old(self).uuid(),
            final(self).name() == old(self).name(),
            final(self).composer() == old(self).composer(),
            old(self).is_consistent() && page_index.0 < old(self).page_list().len() ==> final(self).is_consistent(),
    {
        let ghost full = FullStaff { staff, piece_start: None, section_start: None };
        let r = insert_by_top(&mut self.staves, FullStaff { staff, piece_start: None, section_start: None });
        let ghost before_mark = self.staves@;
        mark_first_staff(&mut self.staves);
        proof {
            let n = self.pages@.len() as int;
            if old(self).is_consistent() && page_index.0 < n {
                lemma_insert_consistent(old(self).staves@, full, n);
                lemma_insert_tops(old(self).staves@, full);
            }
            lemma_first_marked_keeps_pages(before_mark, self.staves@, n);
        }
        r
    }

    /// Delete the `staff`-th staff of a page.
    pub fn delete_staff(&mut self, page_index: PageIndex, staff: usize)
        requires
            staff < count_where(old(self).staff_list(), on_page::<G>(page_index.0)),
        ensures
            ({
                let s = old(self).staff_list();
                first_marked(s.remove(nth_on_page(s, page_index.0, staff as int)), final(self).staff_list())
            }),
            final(self).page_list() == old(self).page_list(),
            final(self).uuid() == old(self).uuid(),
            final(self).name() == old(self).name(),
            final(self).composer() == old(self).composer(),
            old(self).is_consistent() ==> final(self).is_consistent(),
    {
        let g = find_nth_on_page(&self.staves, page_index.0, staff);
        self.staves.remove(g);
        let ghost before_mark = self.staves@;
        mark_first_staff(&mut self.staves);
        proof {
            let n = self.pages@.len() as int;
            if old(self).is_consistent() {
                lemma_remove_consistent(old(self).staves@, g as int, n);
                lemma_remove_tops(old(self).staves@, g as int);
            }
            lemma_first_marked_keeps_pages(before_mark, self.staves@, n);
        }
    }

    /// Replace the `staff`-th staff of a page by a changed one on the same page,
    /// keeping what starts at it, and move it to its place from top to bottom.
    /// Returns its new position on the page.
    pub fn modify_staff(&mut self, page_index: PageIndex, staff: usize, modified: StaffV3<G>) -> (r: usize)
        requires
            staff < count_where(old(self).staff_list(), on_page::<G>(page_index.0)),
            modified.page == page_index,
        ensures
            ({
                let s = old(self).staff_list();
                let g = nth_on_page(s, page_index.0, staff as int);
                let rest = s.remove(g);
                let full = FullStaff {
                    staff: modified,
                    piece_start: s[g].piece_start,
                    section_start: s[g].section_start,
                };
                let pos = insert_position(rest, page_index.0, modified.top);
                &&& r == pos.0
                &&& first_marked(rest.insert(pos.1, full), final(self).staff_list())
            }),
            final(self).page_list() == old(self).page_list(),
            final(self).uuid() == old(self).uuid(),
            final(self).name() == old(self).name(),
            final(self).composer() == old(self).composer(),
            old(self).is_consistent() && page_index.0 < old(self).page_list().len() ==> final(self).is_consistent(),
    {
        let g = find_nth_on_page(&self.staves, page_index.0, staff);
        let old_staff = self.staves.remove(g);
        let full = FullStaff {
            staff: modified,
            piece_start: old_staff.piece_start,
            section_start: old_staff.section_start,
        };
        let ghost rest = self.staves@;
        let ghost full_copy = full;
        let r = insert_by_top(&mut self.staves, full);
        let ghost before_mark = self.staves@;
        mark_first_staff(&mut self.staves);
        proof {
            let n = self.pages@.len() as int;
            if old(self).is_consistent() && page_index.0 < n {
                lemma_remove_consistent(old(self).staves@, g as int, n);
                lemma_remove_tops(old(self).staves@, g as int);
                lemma_insert_consistent(rest, full_copy, n);
                lemma_insert_tops(rest, full_copy);
            }
            lemma_first_marked_keeps_pages(before_mark, self.staves@, n);
        }
        r
    }

    /// Take over the staves, piece and section starts, names and identifier of a
    /// song. The pages are left as they are.
    pub fn load(&mut self, song: SongMetaV4<G>)
        ensures
            final(self).loaded_from(song),
            final(self).page_list() == old(self).page_list(),
            song.well_formed() && song_tops_ascending(song.staves@) && (forall|i: int|
                0 <= i < song.staves@.len() ==> #[trigger] song.pages()[i] < old(self).page_list().len())
                ==> final(self).is_consistent(),
    {
        proof {
            lemma_usize_keys_ordered();
        }
        let ghost orig = song;
        let SongMetaV4 { n_pages: _, staves, piece_starts, section_starts, song_uuid, version_uuid: _, title, composer } = song;
        let mut rest = staves;
        let mut pieces = piece_starts;
        let mut sections = section_starts;
        let mut loaded: Vec<FullStaff<G>> = Vec::new();
        let n = rest.len();
        let mut i: usize = 0;
        while i < n
            invariant
                n == orig.staves@.len(),
                0 <= i <= n,
                rest@ == orig.staves@.subrange(i as int, n as int),
                loaded@.len() == i,
                forall|j: int| 0 <= j < i ==> #[trigger] loaded@[j] == loaded_staff(orig, j),
                forall|k: usize| k >= i ==> #[trigger] pieces@.get(k) == orig.piece_starts@.get(k),
                forall|k: usize| k >= i ==> #[trigger] sections@.get(k) == orig.section_starts@.get(k),
            decreases n - i,
        {
            let staff = rest.remove(0);
            let ghost before_pieces = pieces@;
            let ghost before_sections = sections@;
            assert(before_pieces.get(i) == orig.piece_starts@.get(i));
            assert(before_sections.get(i) == orig.section_starts@.get(i));
            let piece = pieces.remove(&i);
            let section = sections.remove(&i);
            assert(pieces@ == before_pieces.remove(i));
            assert(sections@ == before_sections.remove(i));
            assert(piece == orig.piece_starts@.get(i));
            assert(section == orig.section_starts@.get(i));
            assert(staff == orig.staves@[i as int]);
            assert forall|k: usize| k >= i + 1 implies #[trigger] pieces@.get(k) == orig.piece_starts@.get(k) by {
                assert(before_pieces.get(k) == orig.piece_starts@.get(k));
            }
            assert forall|k: usize| k >= i + 1 implies #[trigger] sections@.get(k) == orig.section_starts@.get(k) by {
                assert(before_sections.get(k) == orig.section_starts@.get(k));
            }
            loaded.push(FullStaff { staff, piece_start: piece, section_start: section });
            i += 1;
            assert(rest@ =~= orig.staves@.subrange(i as int, n as int));
        }
        self.staves = loaded;
        self.song_name = match title {
            Some(t) => t,
            None => String::new(),
        };
        self.song_composer = match composer {
            Some(c) => c,
            None => String::new(),
        };
        self.song_uuid = song_uuid;
        proof {
            if orig.well_formed() && song_tops_ascending(orig.staves@) && (forall|i: int|
                0 <= i < orig.staves@.len() ==> #[trigger] orig.pages()[i] < self.pages@.len()) {
                lemma_well_formed_facts(orig);
                let l = self.staves@;
                assert forall|i: int, j: int| 0 <= i <= j < l.len() implies
                    #[trigger] l[i].staff.page.0 <= #[trigger] l[j].staff.page.0 by {
                    assert(l[i] == loaded_staff(orig, i) && l[j] == loaded_staff(orig, j));
                    assert(orig.pages()[i] <= orig.pages()[j]);
                }
                assert forall|i: int, j: int| 0 <= i <= j < l.len() && #[trigger] l[i].staff.page.0
                    == #[trigger] l[j].staff.page.0 implies l[i].staff.top <= l[j].staff.top by {
                    assert(l[i] == loaded_staff(orig, i) && l[j] == loaded_staff(orig, j));
                }
                assert forall|i: int| 0 <= i < l.len() implies #[trigger] l[i].staff.page.0 < self.pages@.len() by {
                    assert(l[i] == loaded_staff(orig, i));
                    assert(orig.pages()[i] < self.pages@.len());
                }
                assert(l[0] == loaded_staff(orig, 0));
            }
        }
    }

    /// The metadata to save for this song, with a fresh version identifier. An
    /// empty name or composer is saved as none.
    pub fn to_song_meta(&self) -> (r: SongMetaV4<G>)
        requires
            self.staff_list().len() > 0,
        ensures
            self.saved_as(r),
    {
        proof {
            lemma_usize_keys_ordered();
        }
        let ghost s = self.staves@;
        let n = self.staves.len();
        let mut pieces: BTreeMap<usize, String> = BTreeMap::new();
        let mut sections: BTreeMap<usize, SectionMeta> = BTreeMap::new();
        let mut i: usize = 0;
        while i < n
            invariant
                n == s.len(),
                s == self.staves@,
                0 <= i <= n,
                pieces@.dom() == Set::new(|k: usize| k < i && s[k as int].piece_start is Some),
                forall|k: usize| #[trigger] pieces@.dom().contains(k) ==> Some(pieces@[k]) == s[k as int].piece_start,
                sections@.dom() == Set::new(|k: usize| k < i && s[k as int].section_start is Some),
                forall|k: usize| #[trigger] sections@.dom().contains(k) ==> Some(sections@[k]) == s[k as int].section_start,
            decreases n - i,
        {
            match &self.staves[i].piece_start {
                Some(name) => {
                    pieces.insert(i, name.clone());
                },
                None => {},
            }
            match self.staves[i].section_start {
                Some(meta) => {
                    sections.insert(i, meta);
                },
                None => {},
            }
            i += 1;
            assert(pieces@.dom() =~= Set::new(|k: usize| k < i && s[k as int].piece_start is Some));
            assert(sections@.dom() =~= Set::new(|k: usize| k < i && s[k as int].section_start is Some));
        }
        assert(pieces@.dom() =~= positions_where(s, starts_piece::<G>()));
        assert(sections@.dom() =~= positions_where(s, starts_section::<G>()));
        let title = if self.song_name.as_str().is_empty() {
            None
        } else {
            Some(self.song_name.clone())
        };
        let composer = if self.song_composer.as_str().is_empty() {
            None
        } else {
            Some(self.song_composer.clone())
        };
        let staves = self.get_staves();
        let r = SongMetaV4 {
            n_pages: self.pages.len(),
            staves,
            piece_starts: pieces,
            section_starts: sections,
            song_uuid: self.song_uuid,
            version_uuid: crate::outside::new_uuid(),
            title,
            composer,
        };
        assert(r.piece_starts@.dom() == positions_where(self.staff_list(), starts_piece::<G>()));
        assert(forall|i: usize|
            #[trigger] r.piece_starts@.dom().contains(i) ==> Some(r.piece_starts@[i])
                == self.staff_list()[i as int].piece_start);
        assert(r.section_starts@.dom() == positions_where(self.staff_list(), starts_section::<G>()));
        assert(text_or_empty(r.title) == self.name());
        assert(text_or_empty(r.composer) == self.composer());
        r
    }

    /// Check or uncheck "a piece starts here" for a staff. A new piece gets an
    /// empty name, and since a piece also starts a section, a plain section
    /// starts there too if none did.
    pub fn set_piece_start(&mut self, staff: StaffIndex, selected: bool)
        requires
            staff.0 < old(self).staff_list().len(),
        ensures
            ({
                let f = old(self).staff_list()[staff.0 as int];
                let g = final(self).staff_list()[staff.0 as int];
                &&& final(self).staff_list().len() == old(self).staff_list().len()
                &&& forall|j: int| 0 <= j < final(self).staff_list().len() && j != staff.0
                    ==> #[trigger] final(self).staff_list()[j] == old(self).staff_list()[j]
                &&& g.staff == f.staff
                &&& selected ==> g.piece_start is Some
                &&& selected && f.piece_start is Some ==> g.piece_start == f.piece_start
                &&& selected && f.piece_start is None ==> g.piece_start.unwrap()@ == Seq::<char>::empty()
                &&& selected && f.section_start is Some ==> g.section_start == f.section_start
                &&& selected && f.section_start is None ==> g.section_start
                    == Some(SectionMeta { is_repetition: false, section_end: false })
                &&& !selected ==> g.piece_start is None && g.section_start == f.section_start
            }),
            final(self).page_list() == old(self).page_list(),
            final(self).uuid() == old(self).uuid(),
            final(self).name() == old(self).name(),
            final(self).composer() == old(self).composer(),
            old(self).is_consistent() && (staff.0 > 0 || selected) ==> final(self).is_consistent(),
    {
        let i = staff.0;
        let f = self.staves.remove(i);
        let g = if selected {
            let piece = match f.piece_start {
                Some(name) => Some(name),
                None => Some(String::new()),
            };
            let section = match f.section_start {
                Some(meta) => Some(meta),
                None => Some(SectionMeta::default()),
            };
            FullStaff { staff: f.staff, piece_start: piece, section_start: section }
        } else {
            FullStaff { staff: f.staff, piece_start: None, section_start: f.section_start }
        };
        self.staves.insert(i, g);
        assert(self.staves@ =~= old(self).staves@.update(i as int, g));
    }

    /// Rename the piece that starts at a staff.
    pub fn set_piece_name(&mut self, staff: StaffIndex, name: String)
        requires
            staff.0 < old(self).staff_list().len(),
            old(self).staff_list()[staff.0 as int].piece_start is Some,
        ensures
            ({
                let f = old(self).staff_list()[staff.0 as int];
                final(self).staff_list() == old(self).staff_list().update(
                    staff.0 as int,
                    FullStaff { staff: f.staff, piece_start: Some(name), section_start: f.section_start },
                )
            }),
            final(self).page_list() == old(self).page_list(),
            final(self).uuid() == old(self).uuid(),
            final(self).name() == old(self).name(),
            final(self).composer() == old(self).composer(),
            old(self).is_consistent() ==> final(self).is_consistent(),
    {
        let i = staff.0;
        let f = self.staves.remove(i);
        let g = FullStaff { staff: f.staff, piece_start: Some(name), section_start: f.section_start };
        self.staves.insert(i, g);
        assert(self.staves@ =~= old(self).staves@.update(i as int, g));
    }

    /// Check or uncheck "a section starts here" for a staff. A new section is a
    /// plain one; an existing one is kept as it is.
    pub fn set_section_start(&mut self, staff: StaffIndex, selected: bool)
        requires
            staff.0 < old(self).staff_list().len(),
        ensures
            ({
                let f = old(self).staff_list()[staff.0 as int];
                let section = if !selected {
                    None
                } else if f.section_start is Some {
                    f.section_start
                } else {
                    Some(SectionMeta { is_repetition: false, section_end: false })
                };
                final(self).staff_list() == old(self).staff_list().update(
                    staff.0 as int,
                    FullStaff { staff: f.staff, piece_start: f.piece_start, section_start: section },
                )
            }),
            final(self).page_list() == old(self).page_list(),
            final(self).uuid() == old(self).uuid(),
            final(self).name() == old(self).name(),
            final(self).composer() == old(self).composer(),
            old(self).is_consistent() && (staff.0 > 0 || selected) ==> final(self).is_consistent(),
    {
        let i = staff.0;
        let f = self.staves.remove(i);
        let section = if !selected {
            None
        } else {
            match f.section_start {
                Some(meta) => Some(meta),
                None => Some(SectionMeta::default()),
            }
        };
        let g = FullStaff { staff: f.staff, piece_start: f.piece_start, section_start: section };
        self.staves.insert(i, g);
        assert(self.staves@ =~= old(self).staves@.update(i as int, g));
    }

    /// Mark the section that starts at a staff as a repetition or not.
    pub fn set_section_repetition(&mut self, staff: StaffIndex, selected: bool)
        requires
            staff.0 < old(self).staff_list().len(),
            old(self).staff_list()[staff.0 as int].section_start is Some,
        ensures
            ({
                let f = old(self).staff_list()[staff.0 as int];
                let meta = f.section_start.unwrap();
                final(self).staff_list() == old(self).staff_list().update(
                    staff.0 as int,
                    FullStaff {
                        staff: f.staff,
                        piece_start: f.piece_start,
                        section_start: Some(SectionMeta { is_repetition: selected, section_end: meta.section_end }),
                    },
                )
            }),
            final(self).page_list() == old(self).page_list(),
            final(self).uuid() == old(self).uuid(),
            final(self).name() == old(self).name(),
            final(self).composer() == old(self).composer(),
            old(self).is_consistent() ==> final(self).is_consistent(),
    {
        let i = staff.0;
        let f = self.staves.remove(i);
        let meta = f.section_start.unwrap();
        let section = Some(SectionMeta { is_repetition: selected, section_end: meta.section_end });
        let g = FullStaff { staff: f.staff, piece_start: f.piece_start, section_start: section };
        self.staves.insert(i, g);
        assert(self.staves@ =~= old(self).staves@.update(i as int, g));
    }

    /// Mark whether the section that starts at a staff also ends the previous one.
    pub fn set_section_end(&mut self, staff: StaffIndex, selected: bool)
        requires
            staff.0 < old(self).staff_list().len(),
            old(self).staff_list()[staff.0 as int].section_start is Some,
        ensures
            ({
                let f = old(self).staff_list()[staff.0 as int];
                let meta = f.section_start.unwrap();
                final(self).staff_list() == old(self).staff_list().update(
                    staff.0 as int,
                    FullStaff {
                        staff: f.staff,
                        piece_start: f.piece_start,
                        section_start: Some(SectionMeta { is_repetition: meta.is_repetition, section_end: selected }),
                    },
                )
            }),
            final(self).page_list() == old(self).page_list(),
            final(self).uuid() == old(self).uuid(),
            final(self).name() == old(self).name(),
            final(self).composer() == old(self).composer(),
            old(self).is_consistent() ==> final(self).is_consistent(),
    {
        let i = staff.0;
        let f = self.staves.remove(i);
        let meta = f.section_start.unwrap();
        let section = Some(SectionMeta { is_repetition: meta.is_repetition, section_end: selected });
        let g = FullStaff { staff: f.staff, piece_start: f.piece_start, section_start: section };
        self.staves.insert(i, g);
        assert(self.staves@ =~= old(self).staves@.update(i as int, g));
    }

    /// What the staff panel shows, for the selected staff or for no selection.
    /// The first staff always starts a piece, so its checkbox cannot be used;
    /// a piece start always starts a section, so that checkbox is locked there.
    pub fn staff_controls(&self, selected: Option<StaffIndex>) -> (r: StaffControls)
        requires
            selected matches Some(i) ==> i.0 < self.staff_list().len(),
        ensures
            ({
                let f = self.staff_list()[selected.unwrap().0 as int];
                let piece = selected is Some && f.piece_start is Some;
                let section = selected is Some && f.section_start is Some;
                let first_ok = selected is Some && selected.unwrap().0 > 0;
                &&& r.piece_start_sensitive == first_ok
                &&& r.piece_start_active == piece
                &&& r.piece_name@ == (if piece { f.piece_start.unwrap()@ } else { Seq::<char>::empty() })
                &&& r.piece_name_sensitive == piece
                &&& r.section_start_sensitive == (!piece && first_ok)
                &&& r.section_start_active == section
                &&& r.section_repetition_sensitive == section
                &&& r.section_repetition_active == (section && f.section_start.unwrap().is_repetition)
                &&& r.section_end_sensitive == section
                &&& r.section_end_active == (section && f.section_start.unwrap().section_end)
            }),
    {
        let (piece_name, piece, section, first_ok) = match selected {
            Some(i) => {
                let name = match &self.staves[i.0].piece_start {
                    Some(n) => n.clone(),
                    None => String::new(),
                };
                (name, self.staves[i.0].piece_start.is_some(), self.staves[i.0].section_start, i.0 > 0)
            },
            None => (String::new(), false, None, false),
        };
        let has_section = section.is_some();
        let repetition = match section {
            Some(meta) => meta.is_repetition,
            None => false,
        };
        let section_end = match section {
            Some(meta) => meta.section_end,
            None => false,
        };
        StaffControls {
            piece_start_sensitive: first_ok,
            piece_start_active: piece,
            piece_name,
            piece_name_sensitive: piece,
            section_start_sensitive: !piece && first_ok,
            section_start_active: has_section,
            section_repetition_sensitive: has_section,
            section_repetition_active: repetition,
            section_end_sensitive: has_section,
            section_end_active: section_end,
        }
    }
}

} // verus!
