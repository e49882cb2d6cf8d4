//! Refinement of the staff bounding boxes that the recognition service reports for a page.
//!
//! The boxes are in pixels of a grayscale rendering of the page. The steps widen them to
//! the staff's content, order them from top to bottom, merge the staves of one system,
//! settle the borders between neighbouring systems, and leave out what is too small to be a
//! staff.
use vstd::prelude::*;
use crate::outside::{
    box_filter, box_filtered, component_labels, connected_components, threshold, Neighbours,
};

verus! {

/// A grayscale image: `width * height` brightness values, row by row (0 is black, 255 white).
pub struct GrayPixels {
    pub width: u32,
    pub height: u32,
    pub pixels: Vec<u8>,
}

/// A staff's bounding box on a page image, in pixels, origin at the top left corner.
#[derive(Clone, Copy, Debug, PartialEq, Eq, Structural)]
pub struct AbsoluteStaff {
    pub left: u32,
    pub top: u32,
    pub right: u32,
    pub bottom: u32,
}

impl GrayPixels {
    /// The pixel buffer matches the dimensions, and the image has fewer than 2^32 pixels.
    pub open spec fn well_formed(&self) -> bool {
        &&& self.pixels.len() == self.width * self.height
        &&& self.width * self.height < 0x1_0000_0000
    }

    /// The brightness at column `x`, row `y`.
    pub open spec fn at(&self, x: int, y: int) -> int {
        self.pixels@[y * self.width + x] as int
    }
}

/// The brightness values of row `y`, summed over the columns `x0 <= x < x1`.
pub open spec fn row_sum(img: &GrayPixels, y: int, x0: int, x1: int) -> int
    decreases x1 - x0,
{
    if x1 <= x0 {
        0
    } else {
        row_sum(img, y, x0, x1 - 1) + img.at(x1 - 1, y)
    }
}

/// The brightness values summed over the rectangle `x0 <= x < x1`, `y0 <= y < y1`.
pub open spec fn area_sum(img: &GrayPixels, x0: int, y0: int, x1: int, y1: int) -> int
    decreases y1 - y0,
{
    if y1 <= y0 {
        0
    } else {
        area_sum(img, x0, y0, x1, y1 - 1) + row_sum(img, y1 - 1, x0, x1)
    }
}

proof fn lemma_index_in_image(w: int, h: int, x: int, y: int)
    requires
        0 <= x < w,
        0 <= y < h,
    ensures
        0 <= y * w + x < w * h,
{
    assert(0 <= y * w) by (nonlinear_arith)
        requires
            0 <= y,
            0 <= w,
    ;
    assert(y * w + x < w * h) by (nonlinear_arith)
        requires
            0 <= x < w,
            0 <= y < h,
    ;
}

proof fn lemma_row_span(w: int, h: int, x0: int, x1: int, y: int)
    requires
        0 <= x0 <= x1 <= w,
        0 <= y < h,
    ensures
        0 <= y * w + x0 <= y * w + x1 <= w * h,
{
    assert(0 <= y * w) by (nonlinear_arith)
        requires
            0 <= y,
            0 <= w,
    ;
    assert(y * w + w <= w * h) by (nonlinear_arith)
        requires
            0 <= y < h,
            0 <= w,
    ;
}

proof fn lemma_row_sum_bounds(img: &GrayPixels, y: int, x0: int, x1: int)
    requires
        img.well_formed(),
        0 <= y < img.height,
        0 <= x0,
        x1 <= img.width,
    ensures
        0 <= row_sum(img, y, x0, x1),
        x0 <= x1 ==> row_sum(img, y, x0, x1) <= 255 * (x1 - x0),
    decreases x1 - x0,
{
    if x1 > x0 {
        lemma_row_sum_bounds(img, y, x0, x1 - 1);
        lemma_index_in_image(img.width as int, img.height as int, x1 - 1, y);
    }
}

proof fn lemma_area_sum_bounds(img: &GrayPixels, x0: int, y0: int, x1: int, y1: int)
    requires
        img.well_formed(),
        0 <= x0 <= x1 <= img.width,
        0 <= y0,
        y1 <= img.height,
    ensures
        0 <= area_sum(img, x0, y0, x1, y1),
        y0 <= y1 ==> area_sum(img, x0, y0, x1, y1) <= 255 * (x1 - x0) * (y1 - y0),
    decreases y1 - y0,
{
    if y1 > y0 {
        lemma_area_sum_bounds(img, x0, y0, x1, y1 - 1);
        lemma_row_sum_bounds(img, y1 - 1, x0, x1);
        assert(255 * (x1 - x0) * (y1 - 1 - y0) + 255 * (x1 - x0) == 255 * (x1 - x0) * (y1 - y0))
            by (nonlinear_arith);
    }
}

/// Sum of the brightness over the columns `left..=right` and the rows `top..=bottom`; an
/// empty row range sums to 0.
pub fn window_sum(img: &GrayPixels, left: u32, top: u32, right: u32, bottom: u32) -> (s: u64)
    requires
        img.well_formed(),
        left <= right < img.width,
        bottom < img.height,
    ensures
        s == area_sum(img, left as int, top as int, right + 1, bottom + 1),
{
    let mut total: u64 = 0;
    let mut y: u32 = top;
    if top > bottom {
        return 0;
    }
    while y <= bottom
        invariant
            img.well_formed(),
            left <= right < img.width,
            top <= y <= bottom + 1,
            bottom < img.height,
            total == area_sum(img, left as int, top as int, right + 1, y as int),
        decreases bottom + 1 - y,
    {
        let mut x: u32 = left;
        let mut row: u64 = 0;
        while x <= right
            invariant
                img.well_formed(),
                left <= x <= right + 1,
                right < img.width,
                y < img.height,
                row == row_sum(img, y as int, left as int, x as int),
            decreases right + 1 - x,
        {
            proof {
                lemma_index_in_image(img.width as int, img.height as int, x as int, y as int);
                lemma_row_sum_bounds(img, y as int, left as int, x as int);
                assert(255 * (x - left) <= 255 * img.width) by (nonlinear_arith)
                    requires
                        x - left <= img.width,
                ;
            }
            let idx: usize = (y as usize) * (img.width as usize) + (x as usize);
            row = row + img.pixels[idx] as u64;
            x = x + 1;
        }
        proof {
            lemma_area_sum_bounds(img, left as int, top as int, right + 1, y + 1);
            assert(255 * (right + 1 - left) * (y + 1 - top) <= 255 * img.width * img.height)
                by (nonlinear_arith)
                requires
                    right + 1 - left <= img.width,
                    y + 1 - top <= img.height,
                    0 <= y + 1 - top,
                    0 <= right + 1 - left,
            ;
            assert(255 * img.width * img.height < 0x100_0000_0000) by (nonlinear_arith)
                requires
                    img.width * img.height < 0x1_0000_0000,
            ;
        }
        total = total + row;
        if y == bottom {
            return total;
        }
        y = y + 1;
    }
    total
}

/// The smaller of two numbers.
pub open spec fn min_of(a: int, b: int) -> int {
    if a <= b {
        a
    } else {
        b
    }
}

/// The larger of two numbers.
pub open spec fn max_of(a: int, b: int) -> int {
    if a >= b {
        a
    } else {
        b
    }
}

/// `a - b`, or 0 where `b` is the larger.
pub open spec fn diff_or_zero(a: int, b: int) -> int {
    if a >= b {
        a - b
    } else {
        0
    }
}

fn min_u32(a: u32, b: u32) -> (r: u32)
    ensures
        r == min_of(a as int, b as int),
{
    if a <= b {
        a
    } else {
        b
    }
}

fn max_u32(a: u32, b: u32) -> (r: u32)
    ensures
        r == max_of(a as int, b as int),
{
    if a >= b {
        a
    } else {
        b
    }
}

impl AbsoluteStaff {
    /// The width, 0 where the right edge lies left of the left one.
    pub open spec fn spec_width(self) -> int {
        diff_or_zero(self.right as int, self.left as int)
    }

    /// The height, 0 where the bottom edge lies above the top one.
    pub open spec fn spec_height(self) -> int {
        diff_or_zero(self.bottom as int, self.top as int)
    }

    /// `right - left`; a box whose right edge lies left of its left edge has width 0.
    pub fn width(&self) -> (w: u32)
        ensures
            w == self.spec_width(),
    {
        self.right.saturating_sub(self.left)
    }

    /// `bottom - top`; a box whose bottom edge lies above its top edge has height 0.
    pub fn height(&self) -> (h: u32)
        ensures
            h == self.spec_height(),
    {
        self.bottom.saturating_sub(self.top)
    }

    /// Inside an image of `width` x `height` pixels, with its left edge at most its right edge
    /// and its top edge at most its bottom edge; a window of 4 columns fits at the left edge
    /// and another ends at the right edge, and the bottom edge is not the first row.
    pub open spec fn fits(self, width: int, height: int) -> bool {
        &&& self.left <= self.right < width
        &&& 4 <= self.right
        &&& self.left + 4 <= width
        &&& self.top <= self.bottom < height
        &&& 1 <= self.bottom
    }
}

/// The box cut to the image: right edge at most `width - 1`, bottom edge at most `height - 1`.
pub open spec fn clamped(s: AbsoluteStaff, width: u32, height: u32) -> AbsoluteStaff {
    AbsoluteStaff {
        right: min_of(s.right as int, width - 1) as u32,
        bottom: min_of(s.bottom as int, height - 1) as u32,
        ..s
    }
}

/// A window with brightness `sum` over `size` pixels is at least 99% white (less than 1%
/// content). A window of no pixels counts as blank only if its sum is positive.
pub open spec fn mostly_blank(sum: int, size: int) -> bool {
    sum > 0 && 100 * sum >= 99 * 255 * size
}

/// Less than 92% white: the window holds content.
pub open spec fn has_content(sum: int, size: int) -> bool {
    100 * sum < 92 * 255 * size
}

/// Width of the window with which a staff is widened: 2% of its width, at least 4 pixels.
pub open spec fn side_window(s: AbsoluteStaff) -> int {
    max_of(s.spec_width() / 50, 4)
}

/// The left edge after widening: moving left from `l`, the first position that is 0 or whose
/// window (`side_window` columns from there, the staff's rows) is mostly blank.
pub open spec fn left_edge(img: &GrayPixels, s: AbsoluteStaff, l: int) -> int
    decreases l,
{
    let ww = side_window(s);
    if l <= 0 || mostly_blank(
        area_sum(img, l, s.top as int, l + ww, s.bottom as int),
        ww * s.spec_height(),
    ) {
        l
    } else {
        left_edge(img, s, l - 1)
    }
}

/// The right edge after widening: moving right from `r`, the first position that is the last
/// column or whose window (`side_window` columns up to it) is mostly blank.
pub open spec fn right_edge(img: &GrayPixels, s: AbsoluteStaff, r: int) -> int
    decreases img.width - r,
{
    let ww = side_window(s);
    if r >= img.width - 1 || mostly_blank(
        area_sum(img, r - ww, s.top as int, r, s.bottom as int),
        ww * s.spec_height(),
    ) {
        r
    } else {
        right_edge(img, s, r + 1)
    }
}

/// The staff widened to the left and right until the content ends.
pub open spec fn widened(img: &GrayPixels, s: AbsoluteStaff) -> AbsoluteStaff {
    AbsoluteStaff {
        left: left_edge(img, s, s.left as int) as u32,
        right: right_edge(img, s, s.right as int) as u32,
        ..s
    }
}

fn is_mostly_blank(sum: u64, size: u64) -> (b: bool)
    requires
        sum < 0x100_0000_0000,
        size < 0x1_0000_0000,
    ensures
        b == mostly_blank(sum as int, size as int),
{
    sum > 0 && 100 * sum >= 25245 * size
}

fn has_content_in(sum: u64, size: u64) -> (b: bool)
    requires
        sum < 0x100_0000_0000,
        size < 0x1_0000_0000,
    ensures
        b == has_content(sum as int, size as int),
{
    100 * sum < 23460 * size
}

proof fn lemma_area_sum_small(img: &GrayPixels, x0: int, y0: int, x1: int, y1: int)
    requires
        img.well_formed(),
        0 <= x0 <= x1 <= img.width,
        0 <= y0 <= y1 <= img.height,
    ensures
        0 <= area_sum(img, x0, y0, x1, y1) < 0x100_0000_0000,
{
    lemma_area_sum_bounds(img, x0, y0, x1, y1);
    assert(255 * (x1 - x0) * (y1 - y0) <= 255 * img.width * img.height) by (nonlinear_arith)
        requires
            0 <= x1 - x0 <= img.width,
            0 <= y1 - y0 <= img.height,
    ;
    assert(255 * img.width * img.height < 0x100_0000_0000) by (nonlinear_arith)
        requires
            img.width * img.height < 0x1_0000_0000,
    ;
}

proof fn lemma_window_size(w: int, h: int, a: int, b: int)
    requires
        0 <= a <= w,
        0 <= b <= h,
        w * h < 0x1_0000_0000,
    ensures
        0 <= a * b <= w * h,
{
    assert(0 <= a * b <= w * h) by (nonlinear_arith)
        requires
            0 <= a <= w,
            0 <= b <= h,
    ;
}

proof fn lemma_left_edge_range(img: &GrayPixels, s: AbsoluteStaff, l: int)
    requires
        0 <= l,
    ensures
        0 <= left_edge(img, s, l) <= l,
    decreases l,
{
    if l > 0 {
        lemma_left_edge_range(img, s, l - 1);
    }
}


/// The window with which a staff is widened is 4 columns wide, or a fiftieth of the staff's
/// width (rounded down) where that is more.
pub proof fn lemma_side_window(s: AbsoluteStaff)
    ensures
        side_window(s) >= 4,
        side_window(s) * 50 <= s.spec_width() || side_window(s) == 4,
        s.spec_width() < (side_window(s) + 1) * 50,
{
}

/// The window of `side_window(s)` columns from column `x` on, over the staff's rows, is mostly
/// blank.
pub open spec fn blank_from(img: &GrayPixels, s: AbsoluteStaff, x: int) -> bool {
    mostly_blank(area_sum(img, x, s.top as int, x + side_window(s), s.bottom as int), side_window(s) * s.spec_height())
}

/// The window of `side_window(s)` columns ending before column `x`, over the staff's rows, is
/// mostly blank.
pub open spec fn blank_before(img: &GrayPixels, s: AbsoluteStaff, x: int) -> bool {
    mostly_blank(area_sum(img, x - side_window(s), s.top as int, x, s.bottom as int), side_window(s) * s.spec_height())
}

/// Widening to the left stops at the first position, going left from `l`, that is the page's
/// first column or whose window is mostly blank: every position passed on the way had content.
pub proof fn lemma_left_edge_stops_at_blank(img: &GrayPixels, s: AbsoluteStaff, l: int)
    requires
        0 <= l,
    ensures
        ({
            let r = left_edge(img, s, l);
            &&& 0 <= r <= l
            &&& r == 0 || blank_from(img, s, r)
            &&& forall|x: int| r < x <= l ==> !#[trigger] blank_from(img, s, x)
        }),
    decreases l,
{
    if l > 0 {
        lemma_left_edge_stops_at_blank(img, s, l - 1);
    }
}

/// Widening to the right stops at the first position, going right from `r`, that is the page's
/// last column or whose window is mostly blank: every position passed on the way had content.
pub proof fn lemma_right_edge_stops_at_blank(img: &GrayPixels, s: AbsoluteStaff, r: int)
    ensures
        ({
            let e = right_edge(img, s, r);
            &&& r <= e
            &&& r < img.width ==> e < img.width
            &&& e >= img.width - 1 || blank_before(img, s, e)
            &&& forall|x: int| r <= x < e ==> !#[trigger] blank_before(img, s, x)
        }),
    decreases img.width - r,
{
    if r < img.width - 1 && !blank_before(img, s, r) {
        lemma_right_edge_stops_at_blank(img, s, r + 1);
        assert(right_edge(img, s, r) == right_edge(img, s, r + 1));
    } else {
        assert(right_edge(img, s, r) == r);
    }
}

/// Widens one staff to the left and right until the content ends (see `widened`).
pub fn widen(img: &GrayPixels, s: AbsoluteStaff) -> (out: AbsoluteStaff)
    requires
        img.well_formed(),
        s.fits(img.width as int, img.height as int),
    ensures
        out == widened(img, s),
        out.fits(img.width as int, img.height as int),
        out.left <= s.left,
        s.right <= out.right,
        out.top == s.top,
        out.bottom == s.bottom,
{
    let w = s.width();
    let ww = max_u32(w / 50, 4);
    let h = s.height();
    proof {
        lemma_window_size(img.width as int, img.height as int, ww as int, h as int);
    }
    let size = (ww as u64) * (h as u64);
    let mut l = s.left;
    loop
        invariant
            img.well_formed(),
            s.fits(img.width as int, img.height as int),
            ww == side_window(s),
            size == ww * s.spec_height(),
            size <= img.width * img.height,
            l <= s.left,
            left_edge(img, s, l as int) == left_edge(img, s, s.left as int),
        ensures
            l == left_edge(img, s, s.left as int),
        decreases l,
    {
        proof {
            lemma_area_sum_small(img, l as int, s.top as int, l + ww, s.bottom as int);
        }
        let sum = window_sum(img, l, s.top, l + ww - 1, s.bottom - 1);
        if l == 0 || is_mostly_blank(sum, size) {
            break;
        }
        l = l - 1;
    }
    let mut r = s.right;
    loop
        invariant
            img.well_formed(),
            s.fits(img.width as int, img.height as int),
            ww == side_window(s),
            size == ww * s.spec_height(),
            size <= img.width * img.height,
            s.right <= r <= img.width - 1,
            right_edge(img, s, r as int) == right_edge(img, s, s.right as int),
        ensures
            r == right_edge(img, s, s.right as int),
        decreases img.width - r,
    {
        proof {
            lemma_area_sum_small(img, r - ww, s.top as int, r as int, s.bottom as int);
        }
        let sum = window_sum(img, r - ww, s.top, r - 1, s.bottom - 1);
        if r == img.width - 1 || is_mostly_blank(sum, size) {
            break;
        }
        r = r + 1;
    }
    proof {
        lemma_left_edge_range(img, s, s.left as int);
    }
    AbsoluteStaff { left: l, right: r, ..s }
}

/// `sorted` with `s` inserted after the last box whose top is at most `s`'s top.
pub open spec fn insert_by_top(sorted: Seq<AbsoluteStaff>, s: AbsoluteStaff) -> Seq<AbsoluteStaff>
    decreases sorted.len(),
{
    if sorted.len() == 0 {
        seq![s]
    } else if sorted.last().top <= s.top {
        sorted.push(s)
    } else {
        insert_by_top(sorted.drop_last(), s).push(sorted.last())
    }
}

/// The boxes ordered by their top edge, a stable sort: boxes with equal tops keep their order.
pub open spec fn sorted_by_top(staves: Seq<AbsoluteStaff>) -> Seq<AbsoluteStaff>
    decreases staves.len(),
{
    if staves.len() == 0 {
        staves
    } else {
        insert_by_top(sorted_by_top(staves.drop_last()), staves.last())
    }
}

proof fn lemma_insert_after(v: Seq<AbsoluteStaff>, s: AbsoluteStaff, p: int)
    requires
        0 <= p <= v.len(),
        forall|i: int| p <= i < v.len() ==> #[trigger] v[i].top > s.top,
    ensures
        insert_by_top(v, s) == insert_by_top(v.subrange(0, p), s) + v.subrange(p, v.len() as int),
    decreases v.len(),
{
    if p == v.len() {
        assert(v.subrange(0, p) == v);
        assert(v.subrange(p, v.len() as int) =~= Seq::<AbsoluteStaff>::empty());
    } else {
        let d = v.drop_last();
        assert(v.last().top > s.top);
        assert forall|i: int| p <= i < d.len() implies #[trigger] d[i].top > s.top by {
            assert(d[i] == v[i]);
        }
        lemma_insert_after(d, s, p);
        assert(d.subrange(0, p) =~= v.subrange(0, p));
        assert(d.subrange(p, d.len() as int).push(v.last()) =~= v.subrange(p, v.len() as int));
        assert((insert_by_top(d.subrange(0, p), s) + d.subrange(p, d.len() as int)).push(v.last())
            =~= insert_by_top(d.subrange(0, p), s) + v.subrange(p, v.len() as int));
    }
}


fn insert_position(v: &Vec<AbsoluteStaff>, s: AbsoluteStaff) -> (p: usize)
    ensures
        p <= v.len(),
        v@.insert(p as int, s) == insert_by_top(v@, s),
{
    let mut p = v.len();
    while p > 0 && v[p - 1].top > s.top
        invariant
            p <= v.len(),
            forall|i: int| p <= i < v.len() ==> #[trigger] v@[i].top > s.top,
        decreases p,
    {
        p = p - 1;
    }
    proof {
        lemma_insert_after(v@, s, p as int);
        let pre = v@.subrange(0, p as int);
        if p > 0 {
            assert(pre.last() == v@[p - 1]);
        }
        assert(insert_by_top(pre, s) == pre.push(s));
        assert(v@.insert(p as int, s) =~= pre.push(s) + v@.subrange(p as int, v.len() as int));
    }
    p
}

/// Orders the staves from top to bottom, keeping the order of staves with equal tops.
pub fn sort_by_top(staves: Vec<AbsoluteStaff>) -> (out: Vec<AbsoluteStaff>)
    ensures
        out@ == sorted_by_top(staves@),
{
    let mut out: Vec<AbsoluteStaff> = Vec::new();
    let mut i: usize = 0;
    while i < staves.len()
        invariant
            i <= staves.len(),
            out@ == sorted_by_top(staves@.subrange(0, i as int)),
        decreases staves.len() - i,
    {
        let s = staves[i];
        let p = insert_position(&out, s);
        out.insert(p, s);
        proof {
            let next = staves@.subrange(0, i + 1);
            assert(next.drop_last() =~= staves@.subrange(0, i as int));
            assert(next.last() == s);
        }
        i = i + 1;
    }
    assert(staves@.subrange(0, staves.len() as int) =~= staves@);
    out
}

/// The boxes are ordered by their top edge.
pub open spec fn top_ordered(v: Seq<AbsoluteStaff>) -> bool {
    forall|i: int, j: int| 0 <= i < j < v.len() ==> v[i].top <= v[j].top
}

proof fn lemma_insert_by_top_ordered(v: Seq<AbsoluteStaff>, s: AbsoluteStaff)
    requires
        top_ordered(v),
    ensures
        top_ordered(insert_by_top(v, s)),
        insert_by_top(v, s).to_multiset() == v.to_multiset().insert(s),
    decreases v.len(),
{
    broadcast use vstd::seq_lib::group_to_multiset_ensures;
    broadcast use vstd::multiset::group_multiset_axioms;

    if v.len() == 0 {
        assert(seq![s] =~= Seq::<AbsoluteStaff>::empty().push(s));
    } else if v.last().top <= s.top {
        assert(v.drop_last().push(v.last()) =~= v);
    } else {
        let d = v.drop_last();
        let l = v.last();
        lemma_insert_by_top_ordered(d, s);
        let r = insert_by_top(d, s);
        assert(v =~= d.push(l));
        assert forall|i: int| 0 <= i < r.len() implies #[trigger] r[i].top <= l.top by {
            assert(r.to_multiset().count(r[i]) > 0) by {
                assert(r.contains(r[i]));
            }
            if r[i] != s {
                assert(d.to_multiset().count(r[i]) > 0);
                assert(d.contains(r[i]));
                let k = choose|k: int| 0 <= k < d.len() && d[k] == r[i];
                assert(v[k] == r[i]);
            }
        }
        assert(r.push(l).to_multiset() =~= r.to_multiset().insert(l));
        assert(r.to_multiset().insert(l) =~= d.to_multiset().insert(l).insert(s));
    }
}

/// The stable sort by top edge (`sort_by_top`) orders the staves from top to bottom and keeps
/// exactly the staves it was given.
pub proof fn lemma_sort_by_top_orders_and_keeps(v: Seq<AbsoluteStaff>)
    ensures
        top_ordered(sorted_by_top(v)),
        sorted_by_top(v).to_multiset() == v.to_multiset(),
    decreases v.len(),
{
    broadcast use vstd::seq_lib::group_to_multiset_ensures;

    if v.len() > 0 {
        let d = v.drop_last();
        lemma_sort_by_top_orders_and_keeps(d);
        lemma_insert_by_top_ordered(sorted_by_top(d), v.last());
        assert(d.push(v.last()) =~= v);
    }
}

/// The two spans overlap by more than 90%: the shared part is over 90% of their joint extent.
pub open spec fn overlaps(a_left: int, a_right: int, b_left: int, b_right: int) -> bool {
    if a_right < b_left || a_left > b_right {
        false
    } else {
        let small = diff_or_zero(min_of(a_right, b_right), max_of(a_left, b_left));
        let big = diff_or_zero(max_of(a_right, b_right), min_of(a_left, b_left));
        small != 0 && big != 0 && (100 * small) / big > 90
    }
}

/// Whether two staves' horizontal spans overlap by more than 90%.
pub fn overlaps_horizontally(a: &AbsoluteStaff, b: &AbsoluteStaff) -> (o: bool)
    ensures
        o == overlaps(a.left as int, a.right as int, b.left as int, b.right as int),
{
    if a.right < b.left || a.left > b.right {
        return false;
    }
    let small = min_u32(a.right, b.right).saturating_sub(max_u32(a.left, b.left));
    let big = max_u32(a.right, b.right).saturating_sub(min_u32(a.left, b.left));
    if small == 0 || big == 0 {
        return false;
    }
    100 * (small as u64) / (big as u64) > 90
}

/// Step `i` of the overlap removal: where staff `i` reaches below the top of staff `i + 1` and
/// they overlap horizontally, both are cut at the middle of the shared rows.
pub open spec fn split_pair(t: Seq<AbsoluteStaff>, i: int) -> Seq<AbsoluteStaff> {
    let a = t[i];
    let b = t[i + 1];
    if a.bottom > b.top && overlaps(a.left as int, a.right as int, b.left as int, b.right as int) {
        let center = ((a.bottom + b.top) / 2) as u32;
        t.update(i, AbsoluteStaff { bottom: center, ..a }).update(
            i + 1,
            AbsoluteStaff { top: center, ..b },
        )
    } else {
        t
    }
}

/// Cutting an overlap (one step of `split_overlaps`) touches only staves `i` and `i + 1`: where
/// staff `i` reaches below the top of staff `i + 1` and they overlap horizontally by more than 90%,
/// the upper one then ends where the lower one starts, at the middle (rounded down) of the rows
/// they shared; otherwise nothing changes.
pub proof fn lemma_split_pair_cuts_in_the_middle(t: Seq<AbsoluteStaff>, i: int)
    requires
        0 <= i,
        i + 1 < t.len(),
    ensures
        ({
            let r = split_pair(t, i);
            let (a, b) = (t[i], t[i + 1]);
            let cut = a.bottom > b.top && overlaps(a.left as int, a.right as int, b.left as int, b.right as int);
            &&& r.len() == t.len()
            &&& forall|j: int| 0 <= j < t.len() && j != i && j != i + 1 ==> #[trigger] r[j] == t[j]
            &&& cut ==> {
                &&& r[i] == AbsoluteStaff { bottom: r[i].bottom, ..a }
                &&& r[i + 1] == AbsoluteStaff { top: r[i + 1].top, ..b }
                &&& r[i].bottom == r[i + 1].top
                &&& b.top <= r[i].bottom < a.bottom
                &&& a.bottom + b.top - 1 <= 2 * r[i].bottom <= a.bottom + b.top
            }
            &&& !cut ==> r == t
        }),
{
}

/// A horizontal overlap counts when the shared part of the two spans is more than 90% of the
/// whole they cover together; spans that do not meet never overlap.
pub proof fn lemma_overlaps_means_ninety_percent(a_left: int, a_right: int, b_left: int, b_right: int)
    requires
        a_left <= a_right,
        b_left <= b_right,
    ensures
        overlaps(a_left, a_right, b_left, b_right) <==> {
            let small = min_of(a_right, b_right) - max_of(a_left, b_left);
            let big = max_of(a_right, b_right) - min_of(a_left, b_left);
            small > 0 && 100 * small >= 91 * big
        },
        overlaps(a_left, a_right, b_left, b_right) == overlaps(b_left, b_right, a_left, a_right),
{
    let small = min_of(a_right, b_right) - max_of(a_left, b_left);
    let big = max_of(a_right, b_right) - min_of(a_left, b_left);
    if small > 0 && big > 0 {
        assert((100 * small) / big > 90 <==> 100 * small >= 91 * big) by (nonlinear_arith)
            requires
                small > 0,
                big > 0,
        {
            if 100 * small >= 91 * big {
                assert(100 * small - 91 * big >= 0);
            }
        }
    }
}

/// The steps `i, i + 1, ...` of the overlap removal, each on the result of the previous one.
pub open spec fn split_from(t: Seq<AbsoluteStaff>, i: int) -> Seq<AbsoluteStaff>
    decreases t.len() - i,
{
    if i < 0 || i + 1 >= t.len() {
        t
    } else {
        split_from(split_pair(t, i), i + 1)
    }
}

/// Removes vertical overlap between neighbouring staves (in top-to-bottom order) that overlap
/// horizontally, cutting both at the middle of the shared rows.
pub fn split_overlaps(staves: Vec<AbsoluteStaff>) -> (out: Vec<AbsoluteStaff>)
    ensures
        out@ == split_from(staves@, 0),
{
    let mut t = staves;
    if t.len() < 2 {
        return t;
    }
    let mut i: usize = 0;
    while i < t.len() - 1
        invariant
            t.len() == staves.len(),
            t.len() >= 2,
            i <= t.len() - 1,
            split_from(t@, i as int) == split_from(staves@, 0),
        decreases t.len() - i,
    {
        let ghost before = t@;
        let a = t[i];
        let b = t[i + 1];
        if a.bottom > b.top && overlaps_horizontally(&a, &b) {
            let center = ((a.bottom as u64 + b.top as u64) / 2) as u32;
            t.set(i, AbsoluteStaff { bottom: center, ..a });
            t.set(i + 1, AbsoluteStaff { top: center, ..b });
        }
        assert(t@ =~= split_pair(before, i as int));
        i = i + 1;
    }
    t
}

impl AbsoluteStaff {
    /// Every edge inside an image of `width` x `height` pixels, the left edge at most the right
    /// one, a window of 4 columns fitting at the left edge and another ending at the right edge.
    pub open spec fn inside(self, width: int, height: int) -> bool {
        &&& self.left <= self.right < width
        &&& 4 <= self.right
        &&& self.left + 4 <= width
        &&& self.top < height
        &&& self.bottom < height
    }
}

/// Every box is `inside` the image.
pub open spec fn all_inside(t: Seq<AbsoluteStaff>, width: int, height: int) -> bool {
    forall|k: int| 0 <= k < t.len() ==> #[trigger] t[k].inside(width, height)
}

proof fn lemma_insert_keeps_inside(v: Seq<AbsoluteStaff>, s: AbsoluteStaff, w: int, h: int)
    requires
        all_inside(v, w, h),
        s.inside(w, h),
    ensures
        all_inside(insert_by_top(v, s), w, h),
        insert_by_top(v, s).len() == v.len() + 1,
    decreases v.len(),
{
    if v.len() > 0 && v.last().top > s.top {
        let d = v.drop_last();
        assert forall|k: int| 0 <= k < d.len() implies #[trigger] d[k].inside(w, h) by {
            assert(d[k] == v[k]);
        }
        lemma_insert_keeps_inside(d, s, w, h);
        assert(v[v.len() - 1].inside(w, h));
    }
}

proof fn lemma_sort_keeps_inside(v: Seq<AbsoluteStaff>, w: int, h: int)
    requires
        all_inside(v, w, h),
    ensures
        all_inside(sorted_by_top(v), w, h),
        sorted_by_top(v).len() == v.len(),
    decreases v.len(),
{
    if v.len() > 0 {
        let d = v.drop_last();
        assert forall|k: int| 0 <= k < d.len() implies #[trigger] d[k].inside(w, h) by {
            assert(d[k] == v[k]);
        }
        lemma_sort_keeps_inside(d, w, h);
        assert(v[v.len() - 1].inside(w, h));
        lemma_insert_keeps_inside(sorted_by_top(d), v.last(), w, h);
    }
}

proof fn lemma_split_keeps_inside(t: Seq<AbsoluteStaff>, i: int, w: int, h: int)
    requires
        all_inside(t, w, h),
    ensures
        all_inside(split_from(t, i), w, h),
        split_from(t, i).len() == t.len(),
    decreases t.len() - i,
{
    if 0 <= i && i + 1 < t.len() {
        let n = split_pair(t, i);
        assert(t[i].inside(w, h) && t[i + 1].inside(w, h));
        assert forall|k: int| 0 <= k < n.len() implies #[trigger] n[k].inside(w, h) by {
            assert(t[k].inside(w, h));
        }
        lemma_split_keeps_inside(n, i + 1, w, h);
    }
}

/// The staff stretched by half its height upwards and downwards, within the image.
pub open spec fn doubled(s: AbsoluteStaff, height: u32) -> AbsoluteStaff {
    let h = s.spec_height() / 2;
    AbsoluteStaff {
        top: (max_of(s.top as int, h) - h) as u32,
        bottom: min_of(s.bottom + h, height - 1) as u32,
        ..s
    }
}

/// Stretches every staff by half its height upwards and downwards (doubling its height),
/// within an image of the given height.
pub fn double_heights(staves: Vec<AbsoluteStaff>, height: u32) -> (out: Vec<AbsoluteStaff>)
    requires
        height >= 1,
    ensures
        out.len() == staves.len(),
        forall|k: int| 0 <= k < out.len() ==> #[trigger] out@[k] == doubled(staves@[k], height),
{
    let mut out: Vec<AbsoluteStaff> = Vec::new();
    let mut i: usize = 0;
    while i < staves.len()
        invariant
            height >= 1,
            i <= staves.len(),
            out.len() == i,
            forall|k: int| 0 <= k < i ==> #[trigger] out@[k] == doubled(staves@[k], height),
        decreases staves.len() - i,
    {
        let s = staves[i];
        let h = s.height() / 2;
        let top = max_u32(s.top, h) - h;
        let stretched: u64 = s.bottom as u64 + h as u64;
        let bottom: u32 = if stretched <= (height - 1) as u64 {
            stretched as u32
        } else {
            height - 1
        };
        out.push(AbsoluteStaff { top, bottom, ..s });
        i = i + 1;
    }
    out
}

/// The pixels of the rectangle of `w` columns from `x0` and `rows` rows from `y0`, row by row.
pub open spec fn crop_rows(img: &GrayPixels, x0: int, y0: int, w: int, rows: int) -> Seq<u8>
    decreases rows,
{
    if rows <= 0 {
        Seq::empty()
    } else {
        let start = (y0 + rows - 1) * img.width + x0;
        crop_rows(img, x0, y0, w, rows - 1) + img.pixels@.subrange(start, start + w)
    }
}

proof fn lemma_crop_rows_len(img: &GrayPixels, x0: int, y0: int, w: int, rows: int)
    requires
        img.well_formed(),
        0 <= x0,
        0 <= w,
        x0 + w <= img.width,
        0 <= y0,
        0 <= rows,
        y0 + rows <= img.height,
    ensures
        crop_rows(img, x0, y0, w, rows).len() == rows * w,
    decreases rows,
{
    if rows > 0 {
        lemma_crop_rows_len(img, x0, y0, w, rows - 1);
        lemma_row_start(img, x0, y0 + rows - 1, w);
        let start = (y0 + rows - 1) * img.width + x0;
        assert(img.pixels@.subrange(start, start + w).len() == w);
        assert(crop_rows(img, x0, y0, w, rows) == crop_rows(img, x0, y0, w, rows - 1)
            + img.pixels@.subrange(start, start + w));
        assert((rows - 1) * w + w == rows * w) by (nonlinear_arith);
    } else {
        assert(rows * w == 0) by (nonlinear_arith)
            requires
                rows == 0,
        ;
    }
}

proof fn lemma_row_start(img: &GrayPixels, x0: int, y: int, w: int)
    requires
        img.well_formed(),
        0 <= x0,
        0 <= w,
        x0 + w <= img.width,
        0 <= y < img.height,
    ensures
        0 <= y * img.width + x0,
        y * img.width + x0 + w <= img.width * img.height,
{
    assert(0 <= y * img.width) by (nonlinear_arith)
        requires
            0 <= y,
            0 <= img.width,
    ;
    assert(y * img.width + img.width <= img.width * img.height) by (nonlinear_arith)
        requires
            0 <= y < img.height,
            0 <= img.width,
    ;
}

/// The rectangle of `w` x `h` pixels at (`x0`, `y0`) as an image of its own.
pub fn crop(img: &GrayPixels, x0: u32, y0: u32, w: u32, h: u32) -> (out: GrayPixels)
    requires
        img.well_formed(),
        x0 + w <= img.width,
        y0 + h <= img.height,
    ensures
        out.width == w,
        out.height == h,
        out.pixels@ == crop_rows(img, x0 as int, y0 as int, w as int, h as int),
        out.well_formed(),
{
    let mut pixels: Vec<u8> = Vec::new();
    let mut y: u32 = 0;
    while y < h
        invariant
            img.well_formed(),
            x0 + w <= img.width,
            y0 + h <= img.height,
            y <= h,
            pixels@ == crop_rows(img, x0 as int, y0 as int, w as int, y as int),
        decreases h - y,
    {
        proof {
            lemma_row_start(img, x0 as int, (y0 + y) as int, w as int);
        }
        let start: usize = ((y0 + y) as usize) * (img.width as usize) + (x0 as usize);
        let mut x: u32 = 0;
        while x < w
            invariant
                img.well_formed(),
                x <= w,
                start + w <= img.pixels.len(),
                pixels@ == crop_rows(img, x0 as int, y0 as int, w as int, y as int)
                    + img.pixels@.subrange(start as int, start + x),
            decreases w - x,
        {
            pixels.push(img.pixels[start + x as usize]);
            proof {
                assert(img.pixels@.subrange(start as int, start + x + 1) =~= img.pixels@.subrange(
                    start as int,
                    start + x,
                ).push(img.pixels@[start + x]));
            }
            x = x + 1;
        }
        y = y + 1;
    }
    proof {
        lemma_crop_rows_len(img, x0 as int, y0 as int, w as int, h as int);
        assert(w * h <= img.width * img.height) by (nonlinear_arith)
            requires
                w <= img.width,
                h <= img.height,
        ;
        assert(w * h == h * w) by (nonlinear_arith);
    }
    GrayPixels { width: w, height: h, pixels }
}

/// Every pixel brighter than `level` white, every other black.
pub open spec fn thresholded(pixels: Seq<u8>, level: u8) -> Seq<u8> {
    Seq::new(
        pixels.len(),
        |i: int|
            if pixels[i] > level {
                255u8
            } else {
                0u8
            },
    )
}

/// Some label other than 0 occurs both at a position below `a_end` and at a position in
/// `b_start..b_end`.
pub open spec fn shares_label(labels: Seq<u32>, a_end: int, b_start: int, b_end: int) -> bool {
    exists|i: int, j: int|
        0 <= i < a_end && b_start <= j < b_end && labels[i] != 0 && #[trigger] labels[i]
            == #[trigger] labels[j]
}

/// Label `l` occurs at a position in `start..end`.
pub open spec fn label_in(labels: Seq<u32>, start: int, end: int, l: int) -> bool {
    exists|i: int| start <= i < end && #[trigger] labels[i] as int == l
}

/// Marks, in `mark`, every label other than 0 found at the positions `start..end`.
fn mark_span(mark: &mut Vec<bool>, labels: &Vec<u32>, start: usize, end: usize)
    requires
        start <= end <= labels.len(),
        forall|i: int| start <= i < end ==> (#[trigger] labels@[i] as int) < old(mark).len(),
    ensures
        final(mark).len() == old(mark).len(),
        forall|l: int|
            0 <= l < final(mark).len() ==> #[trigger] final(mark)@[l] == (old(mark)@[l] || (l != 0
                && label_in(labels@, start as int, end as int, l))),
{
    let mut i = start;
    while i < end
        invariant
            start <= i <= end <= labels.len(),
            mark.len() == old(mark).len(),
            forall|k: int| start <= k < end ==> (#[trigger] labels@[k] as int) < mark.len(),
            forall|l: int|
                0 <= l < mark.len() ==> #[trigger] mark@[l] == (old(mark)@[l] || (l != 0 && label_in(
                    labels@,
                    start as int,
                    i as int,
                    l,
                ))),
        decreases end - i,
    {
        let ghost prev = mark@;
        let label = labels[i];
        if label != 0 {
            mark.set(label as usize, true);
        }
        proof {
            assert forall|l: int| 0 <= l < mark.len() implies #[trigger] mark@[l] == (old(mark)@[l]
                || (l != 0 && label_in(labels@, start as int, i + 1, l))) by {
                assert(prev[l] == (old(mark)@[l] || (l != 0 && label_in(
                    labels@,
                    start as int,
                    i as int,
                    l,
                ))));
                if label_in(labels@, start as int, i as int, l) {
                    let k = choose|k: int| start <= k < i && #[trigger] labels@[k] as int == l;
                    assert(start <= k < i + 1 && labels@[k] == l);
                }
                if label_in(labels@, start as int, i + 1, l) {
                    let k = choose|k: int| start <= k < i + 1 && #[trigger] labels@[k] as int == l;
                    if k < i {
                        assert(label_in(labels@, start as int, i as int, l));
                    } else {
                        assert(label as int == l);
                    }
                }
                if l == label as int && l != 0 {
                    assert(labels@[i as int] as int == l);
                    assert(label_in(labels@, start as int, i + 1, l));
                }
            }
        }
        i = i + 1;
    }
}

/// Whether some label other than 0 occurs both below `a_end` and in `b_start..b_end`; every
/// label is at most `max_label`.
pub fn share_a_label(labels: &Vec<u32>, a_end: usize, b_start: usize, b_end: usize, max_label: u32)
    -> (found: bool)
    requires
        a_end <= labels.len(),
        b_start <= b_end <= labels.len(),
        forall|i: int| 0 <= i < labels.len() ==> #[trigger] labels@[i] <= max_label,
    ensures
        found == shares_label(labels@, a_end as int, b_start as int, b_end as int),
{
    let mut mark: Vec<bool> = Vec::new();
    let mut k: u64 = 0;
    while k <= max_label as u64
        invariant
            k <= max_label + 1,
            mark.len() == k,
            forall|l: int| 0 <= l < k ==> !#[trigger] mark@[l],
        decreases max_label + 1 - k,
    {
        mark.push(false);
        k = k + 1;
    }
    mark_span(&mut mark, labels, 0, a_end);
    let mut j = b_start;
    while j < b_end
        invariant
            b_start <= j <= b_end <= labels.len(),
            a_end <= labels.len(),
            mark.len() == max_label + 1,
            forall|i: int| 0 <= i < labels.len() ==> #[trigger] labels@[i] <= max_label,
            forall|l: int|
                0 <= l < mark.len() ==> #[trigger] mark@[l] == (l != 0 && label_in(
                    labels@,
                    0,
                    a_end as int,
                    l,
                )),
            !shares_label(labels@, a_end as int, b_start as int, j as int),
        decreases b_end - j,
    {
        let label = labels[j];
        if label != 0 && mark[label as usize] {
            proof {
                let i = choose|i: int| 0 <= i < a_end && #[trigger] labels@[i] as int == label as int;
                assert(labels@[i] == labels@[j as int]);
            }
            return true;
        }
        proof {
            if shares_label(labels@, a_end as int, b_start as int, j + 1) {
                let (i, jj) = choose|i: int, jj: int|
                    0 <= i < a_end && b_start <= jj < j + 1 && labels@[i] != 0 && #[trigger] labels@[i]
                        == #[trigger] labels@[jj];
                if jj == j {
                    assert(label_in(labels@, 0, a_end as int, label as int));
                    assert(mark@[label as int]);
                }
                assert(shares_label(labels@, a_end as int, b_start as int, j as int));
            }
        }
        j = j + 1;
    }
    false
}

/// The labels of the dark components in the window in which two neighbouring staves are
/// checked for a connection: the first 5% of the upper staff's width (at least 4 pixels) from
/// the leftmost of both left edges, from the top of the upper staff to the bottom of the lower
/// one, blurred with a 5x5 box, every pixel above 250 white, every other black.
pub open spec fn merge_window_labels(img: &GrayPixels, a: AbsoluteStaff, b: AbsoluteStaff) -> Seq<
    u32,
> {
    let ww = max_of(a.spec_width() / 20, 4);
    let wh = diff_or_zero(b.bottom as int, a.top as int);
    let x0 = min_of(a.left as int, b.left as int);
    component_labels(
        ww as u32,
        wh as u32,
        thresholded(
            box_filtered(ww as u32, wh as u32, crop_rows(img, x0, a.top as int, ww, wh), 2, 2),
            250,
        ),
        true,
        255,
    )
}

/// Whether two neighbouring staves (`a` above `b`) belong to one system: they overlap
/// horizontally by more than 90%, the lower one's bottom is no further from the upper one's top
/// than three times their joint height, and a dark component near their start reaches into the
/// rows of both.
pub open spec fn merges(img: &GrayPixels, a: AbsoluteStaff, b: AbsoluteStaff) -> bool {
    let ww = max_of(a.spec_width() / 20, 4);
    let wh = diff_or_zero(b.bottom as int, a.top as int);
    &&& overlaps(a.left as int, a.right as int, b.left as int, b.right as int)
    &&& wh <= 3 * (a.spec_height() + b.spec_height())
    &&& shares_label(
        merge_window_labels(img, a, b),
        min_of(a.spec_height(), wh) * ww,
        diff_or_zero(wh, b.spec_height()) * ww,
        wh * ww,
    )
}

/// Whether two neighbouring staves (`a` above `b`) belong to one system (see `merges`).
pub fn same_system(img: &GrayPixels, a: AbsoluteStaff, b: AbsoluteStaff) -> (m: bool)
    requires
        img.well_formed(),
        img.width < 0x100_0000 - 4,
        img.height < 0x100_0000 - 4,
        a.inside(img.width as int, img.height as int),
        b.inside(img.width as int, img.height as int),
    ensures
        m == merges(img, a, b),
{
    if !overlaps_horizontally(&a, &b) {
        return false;
    }
    let ha = a.height();
    let hb = b.height();
    let wh = b.bottom.saturating_sub(a.top);
    if wh as u64 > 3 * (ha as u64 + hb as u64) {
        return false;
    }
    let ww = max_u32(a.width() / 20, 4);
    let x0 = min_u32(a.left, b.left);
    proof {
        assert(ww * wh <= img.width * img.height) by (nonlinear_arith)
            requires
                ww <= img.width,
                wh <= img.height,
        ;
    }
    let window = crop(img, x0, a.top, ww, wh);
    let blurred = box_filter(ww, wh, &window.pixels, 2, 2);
    let dark = threshold(ww, wh, blurred, 250);
    assert(dark@ =~= thresholded(blurred@, 250));
    proof {
        assert forall|i: int| 0 <= i < dark.len() implies #[trigger] dark@[i] == 0 || dark@[i]
            == 255 by {
            assert(dark@[i] == (if blurred@[i] > 250 {
                255u8
            } else {
                0u8
            }));
        }
        if ww * wh == 1 {
            assert(ww * wh >= 4 * wh) by (nonlinear_arith)
                requires
                    ww >= 4,
                    wh >= 0,
            ;
        }
    }
    let labels = connected_components(ww, wh, dark, Neighbours::Eight, 255);
    let rows_a = min_u32(ha, wh);
    let b_start = wh.saturating_sub(hb);
    proof {
        assert(rows_a * ww <= wh * ww) by (nonlinear_arith)
            requires
                rows_a <= wh,
        ;
        assert(b_start * ww <= wh * ww) by (nonlinear_arith)
            requires
                b_start <= wh,
        ;
        assert(wh * ww == ww * wh) by (nonlinear_arith);
    }
    share_a_label(
        &labels,
        (rows_a as usize) * (ww as usize),
        (b_start as usize) * (ww as usize),
        (wh as usize) * (ww as usize),
        ww * wh,
    )
}

/// The box covering both staves.
pub open spec fn joined(a: AbsoluteStaff, b: AbsoluteStaff) -> AbsoluteStaff {
    AbsoluteStaff {
        left: min_of(a.left as int, b.left as int) as u32,
        top: min_of(a.top as int, b.top as int) as u32,
        right: max_of(a.right as int, b.right as int) as u32,
        bottom: max_of(a.bottom as int, b.bottom as int) as u32,
    }
}

/// The merging, from pair `i` down to pair 0: where staves `i` and `i + 1` of `orig` belong to
/// one system, staff `i + 1` of `cur` is removed and folded into staff `i`.
pub open spec fn merge_down(img: &GrayPixels, orig: Seq<AbsoluteStaff>, cur: Seq<AbsoluteStaff>, i: int)
    -> Seq<AbsoluteStaff>
    decreases i + 1,
{
    if i < 0 {
        cur
    } else {
        let next = if merges(img, orig[i], orig[i + 1]) {
            cur.update(i, joined(cur[i], cur[i + 1])).remove(i + 1)
        } else {
            cur
        };
        merge_down(img, orig, next, i - 1)
    }
}

/// The staves (top to bottom) with the staves of each system merged into one box; which
/// neighbours belong together is decided on the staves as given.
pub open spec fn merged_systems(img: &GrayPixels, t: Seq<AbsoluteStaff>) -> Seq<AbsoluteStaff> {
    merge_down(img, t, t, t.len() - 2)
}

/// Merges the staves (top to bottom) of each system into one box (see `merged_systems`).
pub fn merge_systems(img: &GrayPixels, staves: Vec<AbsoluteStaff>) -> (out: Vec<AbsoluteStaff>)
    requires
        img.well_formed(),
        img.width < 0x100_0000 - 4,
        img.height < 0x100_0000 - 4,
        all_inside(staves@, img.width as int, img.height as int),
    ensures
        out@ == merged_systems(img, staves@),
        all_inside(out@, img.width as int, img.height as int),
        out.len() <= staves.len(),
{
    let n = staves.len();
    if n < 2 {
        return staves;
    }
    let mut decide: Vec<bool> = Vec::new();
    let mut i: usize = 0;
    while i < n - 1
        invariant
            n == staves.len(),
            n >= 2,
            i <= n - 1,
            img.well_formed(),
            img.width < 0x100_0000 - 4,
            img.height < 0x100_0000 - 4,
            all_inside(staves@, img.width as int, img.height as int),
            decide.len() == i,
            forall|k: int|
                0 <= k < i ==> #[trigger] decide@[k] == merges(img, staves@[k], staves@[k + 1]),
        decreases n - 1 - i,
    {
        proof {
            assert(staves@[i as int].inside(img.width as int, img.height as int));
            assert(staves@[i + 1].inside(img.width as int, img.height as int));
        }
        let m = same_system(img, staves[i], staves[i + 1]);
        decide.push(m);
        i = i + 1;
    }
    let ghost orig = staves@;
    let mut t = staves;
    let mut j: usize = n - 1;
    while j >= 1
        invariant
            n == orig.len(),
            n >= 2,
            j <= n - 1,
            decide.len() == n - 1,
            forall|k: int| 0 <= k < n - 1 ==> #[trigger] decide@[k] == merges(img, orig[k], orig[k + 1]),
            t.len() >= j + 1,
            forall|k: int| 0 <= k < j ==> #[trigger] t@[k] == orig[k],
            all_inside(t@, img.width as int, img.height as int),
            t.len() <= n,
            merge_down(img, orig, t@, j - 1) == merge_down(img, orig, orig, n - 2),
        decreases j,
    {
        let ghost before = t@;
        if decide[j - 1] {
            let b = t.remove(j);
            let a = t[j - 1];
            let joint = AbsoluteStaff {
                left: min_u32(a.left, b.left),
                top: min_u32(a.top, b.top),
                right: max_u32(a.right, b.right),
                bottom: max_u32(a.bottom, b.bottom),
            };
            t.set(j - 1, joint);
            proof {
                assert(t@ =~= before.update(j - 1, joined(before[j - 1], before[j as int])).remove(
                    j as int,
                ));
                assert(before[j - 1].inside(img.width as int, img.height as int));
                assert(before[j as int].inside(img.width as int, img.height as int));
                assert forall|k: int| 0 <= k < t.len() implies #[trigger] t@[k].inside(
                    img.width as int,
                    img.height as int,
                ) by {
                    if k < j - 1 {
                        assert(t@[k] == before[k]);
                    } else if k > j - 1 {
                        assert(t@[k] == before[k + 1]);
                    }
                }
            }
        }
        j = j - 1;
    }
    t
}

/// Label `l` is not 0 and occurs inside the staff's box (columns `left..right`, rows
/// `top..bottom`) of a label image `w` pixels wide.
pub open spec fn in_box(labels: Seq<u32>, w: int, s: AbsoluteStaff, l: int) -> bool {
    l != 0 && exists|y: int|
        s.top <= y < s.bottom && #[trigger] label_in(labels, y * w + s.left, y * w + s.right, l)
}

/// Row `y`, between the staff's left and right edge, holds a pixel of a component that occurs
/// inside the staff's box.
pub open spec fn row_touches(labels: Seq<u32>, w: int, s: AbsoluteStaff, y: int) -> bool {
    exists|x: int| s.left <= x < s.right && #[trigger] in_box(labels, w, s, labels[y * w + x] as int)
}

/// Going down from row `y` (below `end`), the last row of the unbroken run of rows that touch
/// the staff's components; `found` if row `y` does not.
pub open spec fn follow_down(labels: Seq<u32>, w: int, s: AbsoluteStaff, y: int, end: int, found: int) -> int
    decreases end - y,
{
    if y < end && row_touches(labels, w, s, y) {
        follow_down(labels, w, s, y + 1, end, y)
    } else {
        found
    }
}

/// Going up from the row above `y` (down to `stop`), the last row of the unbroken run of rows
/// that touch the staff's components; `found` if the row above `y` does not.
pub open spec fn follow_up(labels: Seq<u32>, w: int, s: AbsoluteStaff, y: int, stop: int, found: int) -> int
    decreases y - stop,
{
    if y > stop && row_touches(labels, w, s, y - 1) {
        follow_up(labels, w, s, y - 1, stop, y - 1)
    } else {
        found
    }
}

/// The staff extended down and up along the dark components inside it, by at most its height
/// each way.
pub open spec fn followed(labels: Seq<u32>, width: u32, height: u32, s: AbsoluteStaff) -> AbsoluteStaff {
    let h = s.spec_height();
    AbsoluteStaff {
        bottom: follow_down(
            labels,
            width as int,
            s,
            s.bottom as int,
            min_of(s.bottom + h, height as int),
            s.bottom as int,
        ) as u32,
        top: follow_up(labels, width as int, s, s.top as int, s.top - min_of(h, s.top as int), s.top as int) as u32,
        ..s
    }
}



/// Whether row `y` touches the staff's components, given `mark` of the labels inside its box.
fn touches_row(labels: &Vec<u32>, mark: &Vec<bool>, width: u32, height: u32, s: AbsoluteStaff, y: u32) -> (t: bool)
    requires
        labels.len() == width * height,
        width * height < 0x1_0000_0000,
        y < height,
        s.left <= s.right < width,
        forall|i: int| 0 <= i < labels.len() ==> (#[trigger] labels@[i] as int) < mark.len(),
        forall|l: int| 0 <= l < mark.len() ==> #[trigger] mark@[l] == in_box(labels@, width as int, s, l),
    ensures
        t == row_touches(labels@, width as int, s, y as int),
{
    let mut x = s.left;
    while x < s.right
        invariant
            labels.len() == width * height,
            width * height < 0x1_0000_0000,
            y < height,
            s.right < width,
            s.left <= x <= s.right,
            forall|i: int| 0 <= i < labels.len() ==> (#[trigger] labels@[i] as int) < mark.len(),
            forall|l: int| 0 <= l < mark.len() ==> #[trigger] mark@[l] == in_box(labels@, width as int, s, l),
            forall|xx: int| s.left <= xx < x ==> !#[trigger] in_box(labels@, width as int, s, labels@[y * width + xx] as int),
        decreases s.right - x,
    {
        proof {
            lemma_index_in_image(width as int, height as int, x as int, y as int);
        }
        let label = labels[(y as usize) * (width as usize) + (x as usize)];
        if mark[label as usize] {
            return true;
        }
        x = x + 1;
    }
    false
}

/// Extends one staff down and up along the dark components inside it (see `followed`); `labels`
/// labels the page's dark components, every label at most `width * height`.
pub fn follow_components(labels: &Vec<u32>, width: u32, height: u32, s: AbsoluteStaff) -> (out: AbsoluteStaff)
    requires
        labels.len() == width * height,
        width * height < 0x1_0000_0000,
        forall|i: int| 0 <= i < labels.len() ==> #[trigger] labels@[i] <= width * height,
        s.inside(width as int, height as int),
    ensures
        out == followed(labels@, width, height, s),
        out.inside(width as int, height as int),
{
    let max_label = width * height;
    let mut mark: Vec<bool> = Vec::new();
    let mut k: u64 = 0;
    while k <= max_label as u64
        invariant
            k <= max_label + 1,
            mark.len() == k,
            forall|l: int| 0 <= l < k ==> !#[trigger] mark@[l],
        decreases max_label + 1 - k,
    {
        mark.push(false);
        k = k + 1;
    }
    let mut y = s.top;
    while y < s.bottom
        invariant
            labels.len() == width * height,
            width * height < 0x1_0000_0000,
            max_label == width * height,
            forall|i: int| 0 <= i < labels.len() ==> #[trigger] labels@[i] <= width * height,
            s.inside(width as int, height as int),
            s.top <= y,
            y <= s.bottom || s.bottom < s.top,
            s.bottom < s.top ==> y == s.top,
            mark.len() == max_label + 1,
            forall|l: int| 0 <= l < mark.len() ==> #[trigger] mark@[l] == (l != 0 && exists|yy: int|
                s.top <= yy < y && #[trigger] label_in(labels@, yy * width + s.left, yy * width + s.right, l)),
        decreases s.bottom - y,
    {
        proof {
            lemma_row_span(width as int, height as int, s.left as int, s.right as int, y as int);
        }
        let row = (y as usize) * (width as usize);
        let ghost prev = mark@;
        mark_span(&mut mark, labels, row + s.left as usize, row + s.right as usize);
        proof {
            assert forall|l: int| 0 <= l < mark.len() implies #[trigger] mark@[l] == (l != 0 && exists|yy: int|
                s.top <= yy < y + 1 && #[trigger] label_in(labels@, yy * width + s.left, yy * width + s.right, l)) by {
                if l != 0 && exists|yy: int| s.top <= yy < y + 1 && #[trigger] label_in(labels@, yy * width + s.left, yy * width + s.right, l) {
                    let yy = choose|yy: int| s.top <= yy < y + 1 && #[trigger] label_in(labels@, yy * width + s.left, yy * width + s.right, l);
                    if yy < y {
                        assert(prev[l]);
                    }
                }
                if prev[l] {
                    let yy = choose|yy: int| s.top <= yy < y && #[trigger] label_in(labels@, yy * width + s.left, yy * width + s.right, l);
                    assert(s.top <= yy < y + 1);
                }
            }
        }
        y = y + 1;
    }
    proof {
        assert forall|l: int| 0 <= l < mark.len() implies #[trigger] mark@[l] == in_box(labels@, width as int, s, l) by {
            if s.bottom < s.top {
                assert(y == s.top);
            }
        }
        assert forall|i: int| 0 <= i < labels.len() implies (#[trigger] labels@[i] as int) < mark.len() by {}
    }
    let h = s.height();
    let end: u32 = if (s.bottom as u64) + (h as u64) < height as u64 {
        s.bottom + h
    } else {
        height
    };
    let mut yd = s.bottom;
    let mut bottom = s.bottom;
    while yd < end && touches_row(labels, &mark, width, height, s, yd)
        invariant
            labels.len() == width * height,
            width * height < 0x1_0000_0000,
            s.inside(width as int, height as int),
            end <= height,
            s.bottom <= bottom <= yd,
            bottom < height,
            forall|i: int| 0 <= i < labels.len() ==> (#[trigger] labels@[i] as int) < mark.len(),
            forall|l: int| 0 <= l < mark.len() ==> #[trigger] mark@[l] == in_box(labels@, width as int, s, l),
            follow_down(labels@, width as int, s, yd as int, end as int, bottom as int)
                == follow_down(labels@, width as int, s, s.bottom as int, end as int, s.bottom as int),
        decreases end - yd,
    {
        bottom = yd;
        yd = yd + 1;
    }
    let stop = s.top - min_u32(h, s.top);
    let mut yu = s.top;
    let mut top = s.top;
    while yu > stop && touches_row(labels, &mark, width, height, s, yu - 1)
        invariant
            labels.len() == width * height,
            width * height < 0x1_0000_0000,
            s.inside(width as int, height as int),
            stop <= yu <= top <= s.top,
            forall|i: int| 0 <= i < labels.len() ==> (#[trigger] labels@[i] as int) < mark.len(),
            forall|l: int| 0 <= l < mark.len() ==> #[trigger] mark@[l] == in_box(labels@, width as int, s, l),
            follow_up(labels@, width as int, s, yu as int, stop as int, top as int)
                == follow_up(labels@, width as int, s, s.top as int, stop as int, s.top as int),
        decreases yu - stop,
    {
        top = yu - 1;
        yu = yu - 1;
    }
    AbsoluteStaff { top, bottom, ..s }
}

/// Sum of the brightness over the columns `x0..x1` and the rows `y0..y1` (0 if no row).
fn area(img: &GrayPixels, x0: u32, y0: u32, x1: u32, y1: u32) -> (sum: u64)
    requires
        img.well_formed(),
        x0 < x1 <= img.width,
        y1 <= img.height,
    ensures
        sum == area_sum(img, x0 as int, y0 as int, x1 as int, y1 as int),
        sum < 0x100_0000_0000,
{
    if y1 <= y0 {
        return 0;
    }
    proof {
        lemma_area_sum_small(img, x0 as int, y0 as int, x1 as int, y1 as int);
    }
    window_sum(img, x0, y0, x1 - 1, y1 - 1)
}

/// The bottom edge moved down, one row at a time, while the window of `wh` rows above it (from
/// column `x`, `ww` wide) holds content and the edge is above the last row.
pub open spec fn grow_down(img: &GrayPixels, s: AbsoluteStaff, x: int, ww: int, wh: int, size: int) -> AbsoluteStaff
    decreases img.height - s.bottom,
{
    if s.bottom < img.height - 1 && has_content(
        area_sum(img, x, diff_or_zero(s.bottom as int, wh), x + ww, s.bottom as int),
        size,
    ) {
        grow_down(img, AbsoluteStaff { bottom: (s.bottom + 1) as u32, ..s }, x, ww, wh, size)
    } else {
        s
    }
}

/// The top edge moved up, one row at a time, while the window of `wh` rows below it (within the
/// image; from column `x`, `ww` wide) holds content and the edge is below the first row.
pub open spec fn grow_up(img: &GrayPixels, s: AbsoluteStaff, x: int, ww: int, wh: int, size: int) -> AbsoluteStaff
    decreases s.top,
{
    if s.top > 0 && has_content(
        area_sum(img, x, s.top as int, x + ww, min_of(s.top + wh, img.height as int)),
        size,
    ) {
        grow_up(img, AbsoluteStaff { top: (s.top - 1) as u32, ..s }, x, ww, wh, size)
    } else {
        s
    }
}

/// The window positions `x..end`, each growing the bottom and then the top edge.
pub open spec fn grow_along(img: &GrayPixels, s: AbsoluteStaff, x: int, end: int, ww: int, wh: int, size: int)
    -> AbsoluteStaff
    decreases end - x,
{
    if x >= end {
        s
    } else {
        grow_along(
            img,
            grow_up(img, grow_down(img, s, x, ww, wh, size), x, ww, wh, size),
            x + 1,
            end,
            ww,
            wh,
            size,
        )
    }
}

/// The staff grown up and down to nearby content: a window of 1/80 of its width and 1/80 of its
/// height (at least 4 pixels each) slides along it from its left edge; at each position the
/// bottom edge moves down while the window above it holds content, then the top edge moves up
/// while the window below it does.
pub open spec fn expanded(img: &GrayPixels, s: AbsoluteStaff) -> AbsoluteStaff {
    let ww = max_of(s.spec_width() / 80, 4);
    let wh = max_of(s.spec_height() / 80, 4);
    grow_along(img, s, s.left as int, s.right - ww, ww, wh, ww * wh)
}

fn content_below_edge(img: &GrayPixels, s: AbsoluteStaff, x: u32, ww: u32, wh: u32, size: u64) -> (c: bool)
    requires
        img.well_formed(),
        0 < ww,
        x + ww <= img.width,
        s.bottom < img.height,
        size < 0x1_0000_0000,
    ensures
        c == has_content(
            area_sum(img, x as int, diff_or_zero(s.bottom as int, wh as int), x + ww, s.bottom as int),
            size as int,
        ),
{
    let sum = area(img, x, s.bottom.saturating_sub(wh), x + ww, s.bottom);
    has_content_in(sum, size)
}

fn content_above_edge(img: &GrayPixels, s: AbsoluteStaff, x: u32, ww: u32, wh: u32, size: u64) -> (c: bool)
    requires
        img.well_formed(),
        0 < ww,
        x + ww <= img.width,
        s.top < img.height,
        size < 0x1_0000_0000,
    ensures
        c == has_content(
            area_sum(img, x as int, s.top as int, x + ww, min_of(s.top + wh, img.height as int)),
            size as int,
        ),
{
    let reach: u64 = s.top as u64 + wh as u64;
    let end: u32 = if reach < img.height as u64 {
        reach as u32
    } else {
        img.height
    };
    let sum = area(img, x, s.top, x + ww, end);
    has_content_in(sum, size)
}

/// Grows one staff up and down to nearby content (see `expanded`).
pub fn expand_to_content(img: &GrayPixels, s: AbsoluteStaff) -> (out: AbsoluteStaff)
    requires
        img.well_formed(),
        img.width < 0x100_0000,
        s.inside(img.width as int, img.height as int),
    ensures
        out == expanded(img, s),
        out.inside(img.width as int, img.height as int),
{
    let ww = max_u32(s.width() / 80, 4);
    let wh = max_u32(s.height() / 80, 4);
    proof {
        if s.spec_height() / 80 >= 4 {
            assert(ww * wh <= img.width * img.height) by (nonlinear_arith)
                requires
                    ww <= img.width,
                    wh <= img.height,
            ;
        } else {
            assert(ww * wh <= img.width * 4) by (nonlinear_arith)
                requires
                    ww <= img.width,
                    wh == 4,
            ;
        }
    }
    let size: u64 = (ww as u64) * (wh as u64);
    let end = s.right - ww;
    let mut cur = s;
    let mut x = s.left;
    while x < end
        invariant
            img.well_formed(),
            s.inside(img.width as int, img.height as int),
            ww == max_of(s.spec_width() / 80, 4),
            wh == max_of(s.spec_height() / 80, 4),
            size == ww * wh,
            size < 0x1_0000_0000,
            end == s.right - ww,
            s.left <= x,
            cur.inside(img.width as int, img.height as int),
            cur.left == s.left,
            cur.right == s.right,
            grow_along(img, cur, x as int, end as int, ww as int, wh as int, size as int)
                == expanded(img, s),
        decreases end - x,
    {
        let ghost start = cur;
        while cur.bottom < img.height - 1 && content_below_edge(img, cur, x, ww, wh, size)
            invariant
                img.well_formed(),
                x < end,
                end == s.right - ww,
                s.inside(img.width as int, img.height as int),
                size < 0x1_0000_0000,
                0 < ww,
                cur.inside(img.width as int, img.height as int),
                cur.left == s.left,
                cur.right == s.right,
                cur.top == start.top,
                grow_down(img, cur, x as int, ww as int, wh as int, size as int)
                    == grow_down(img, start, x as int, ww as int, wh as int, size as int),
            decreases img.height - cur.bottom,
        {
            cur = AbsoluteStaff { bottom: cur.bottom + 1, ..cur };
        }
        let ghost mid = cur;
        while cur.top > 0 && content_above_edge(img, cur, x, ww, wh, size)
            invariant
                img.well_formed(),
                x < end,
                end == s.right - ww,
                s.inside(img.width as int, img.height as int),
                size < 0x1_0000_0000,
                0 < ww,
                cur.inside(img.width as int, img.height as int),
                cur.left == s.left,
                cur.right == s.right,
                cur.bottom == mid.bottom,
                grow_up(img, cur, x as int, ww as int, wh as int, size as int)
                    == grow_up(img, mid, x as int, ww as int, wh as int, size as int),
            decreases cur.top,
        {
            cur = AbsoluteStaff { top: cur.top - 1, ..cur };
        }
        x = x + 1;
    }
    cur
}

/// Rows `y - 1` to `y + 1` (within the image), from column `left` to column `right`, are
/// blank: their brightness is more than 99.95% of `3 * (right - left)` white pixels.
pub open spec fn blank_line(img: &GrayPixels, left: int, right: int, y: int) -> bool {
    let sum = area_sum(img, left, diff_or_zero(y, 1), right + 1, min_of(y + 1, img.height - 1) + 1);
    10000 * sum > 9995 * 3 * 255 * (right - left)
}

/// The first blank line among the rows `lo..hi`.
pub open spec fn first_blank(img: &GrayPixels, left: int, right: int, lo: int, hi: int) -> Option<int>
    decreases hi - lo,
{
    if hi <= lo {
        None
    } else {
        match first_blank(img, left, right, lo, hi - 1) {
            Some(f) => Some(f),
            None => if blank_line(img, left, right, hi - 1) {
                Some(hi - 1)
            } else {
                None
            },
        }
    }
}

/// The last blank line among the rows `lo..hi`.
pub open spec fn last_blank(img: &GrayPixels, left: int, right: int, lo: int, hi: int) -> Option<int>
    decreases hi - lo,
{
    if hi <= lo {
        None
    } else if blank_line(img, left, right, hi - 1) {
        Some(hi - 1)
    } else {
        last_blank(img, left, right, lo, hi - 1)
    }
}

/// Step `i` of the border settling between staves `i` and `i + 1`: the upper one ends no lower
/// than where the lower one began in `backup`, the lower one starts no higher than where the
/// upper one ended there; where they still overlap and blank lines cross both, the upper one
/// ends at the first and the lower one starts at the last of them.
pub open spec fn clip_pair(img: &GrayPixels, t: Seq<AbsoluteStaff>, backup: Seq<AbsoluteStaff>, i: int)
    -> Seq<AbsoluteStaff>
{
    let a = AbsoluteStaff { bottom: min_of(t[i].bottom as int, backup[i + 1].top as int) as u32, ..t[i] };
    let b = AbsoluteStaff { top: max_of(t[i + 1].top as int, backup[i].bottom as int) as u32, ..t[i + 1] };
    let left = min_of(a.left as int, b.left as int);
    let right = max_of(a.right as int, b.right as int);
    if a.bottom > b.top {
        match (
            first_blank(img, left, right, b.top as int, a.bottom as int),
            last_blank(img, left, right, b.top as int, a.bottom as int),
        ) {
            (Some(f), Some(l)) => t.update(i, AbsoluteStaff { bottom: f as u32, ..a }).update(
                i + 1,
                AbsoluteStaff { top: l as u32, ..b },
            ),
            _ => t.update(i, a).update(i + 1, b),
        }
    } else {
        t.update(i, a).update(i + 1, b)
    }
}

/// The steps `i, i + 1, ...` of the border settling, each on the result of the previous one.
pub open spec fn clip_from(img: &GrayPixels, t: Seq<AbsoluteStaff>, backup: Seq<AbsoluteStaff>, i: int)
    -> Seq<AbsoluteStaff>
    decreases t.len() - i,
{
    if i < 0 || i + 1 >= t.len() {
        t
    } else {
        clip_from(img, clip_pair(img, t, backup, i), backup, i + 1)
    }
}

fn is_blank_line(img: &GrayPixels, left: u32, right: u32, y: u32) -> (b: bool)
    requires
        img.well_formed(),
        img.width < 0x100_0000,
        left <= right < img.width,
        y < img.height,
    ensures
        b == blank_line(img, left as int, right as int, y as int),
{
    let below: u32 = if y + 1 < img.height - 1 {
        y + 1
    } else {
        img.height - 1
    };
    let sum = area(img, left, y.saturating_sub(1), right + 1, below + 1);
    10000 * sum > 7646175 * ((right - left) as u64)
}

proof fn lemma_first_blank_range(img: &GrayPixels, left: int, right: int, lo: int, hi: int)
    ensures
        first_blank(img, left, right, lo, hi) matches Some(f) ==> lo <= f < hi,
        last_blank(img, left, right, lo, hi) matches Some(l) ==> lo <= l < hi,
        first_blank(img, left, right, lo, hi) is Some <==> last_blank(img, left, right, lo, hi) is Some,
    decreases hi - lo,
{
    if hi > lo {
        lemma_first_blank_range(img, left, right, lo, hi - 1);
    }
}

proof fn lemma_first_blank_is_first(img: &GrayPixels, left: int, right: int, lo: int, hi: int)
    ensures
        match first_blank(img, left, right, lo, hi) {
            Some(f) => lo <= f < hi && blank_line(img, left, right, f) && forall|y: int|
                lo <= y < f ==> !#[trigger] blank_line(img, left, right, y),
            None => forall|y: int| lo <= y < hi ==> !#[trigger] blank_line(img, left, right, y),
        },
    decreases hi - lo,
{
    if hi > lo {
        lemma_first_blank_is_first(img, left, right, lo, hi - 1);
    }
}

proof fn lemma_last_blank_is_last(img: &GrayPixels, left: int, right: int, lo: int, hi: int)
    ensures
        match last_blank(img, left, right, lo, hi) {
            Some(l) => lo <= l < hi && blank_line(img, left, right, l) && forall|y: int|
                l < y < hi ==> !#[trigger] blank_line(img, left, right, y),
            None => forall|y: int| lo <= y < hi ==> !#[trigger] blank_line(img, left, right, y),
        },
    decreases hi - lo,
{
    if hi > lo {
        lemma_last_blank_is_last(img, left, right, lo, hi - 1);
    }
}

/// How the border between a staff `upper` and the staff `lower` below it is settled, given the
/// two as they were before they were extended (`upper_before`, `lower_before`): the upper
/// staff's bottom is first cut to where the lower one began before, and the lower staff's top to
/// where the upper one ended before. Where they then still overlap and some row of the overlap
/// is a blank line across both, the upper staff ends (`new_bottom`) at the first blank line of
/// the overlap and the lower one starts (`new_top`) at the last, so that they no longer overlap;
/// otherwise the cut edges stay.
pub open spec fn border_settled(
    img: &GrayPixels,
    upper: AbsoluteStaff,
    lower: AbsoluteStaff,
    upper_before: AbsoluteStaff,
    lower_before: AbsoluteStaff,
    new_bottom: int,
    new_top: int,
) -> bool {
    let bottom = min_of(upper.bottom as int, lower_before.top as int);
    let top = max_of(lower.top as int, upper_before.bottom as int);
    let left = min_of(upper.left as int, lower.left as int);
    let right = max_of(upper.right as int, lower.right as int);
    let blank_in_overlap = top < bottom && exists|y: int|
        top <= y < bottom && #[trigger] blank_line(img, left, right, y);
    &&& blank_in_overlap ==> {
        &&& top <= new_bottom < bottom
        &&& blank_line(img, left, right, new_bottom)
        &&& forall|y: int| top <= y < new_bottom ==> !#[trigger] blank_line(img, left, right, y)
        &&& top <= new_top < bottom
        &&& blank_line(img, left, right, new_top)
        &&& forall|y: int| new_top < y < bottom ==> !#[trigger] blank_line(img, left, right, y)
        &&& new_bottom <= new_top
    }
    &&& !blank_in_overlap ==> new_bottom == bottom && new_top == top
}

/// Settling the border between staves `i` and `i + 1` (one step of `clip_borders`) changes only
/// the upper staff's bottom and the lower staff's top, and settles them as `border_settled`
/// says.
pub proof fn lemma_clip_pair_settles(img: &GrayPixels, t: Seq<AbsoluteStaff>, backup: Seq<AbsoluteStaff>, i: int)
    requires
        0 <= i,
        i + 1 < t.len(),
        i + 1 < backup.len(),
    ensures
        ({
            let r = clip_pair(img, t, backup, i);
            &&& r.len() == t.len()
            &&& forall|j: int| 0 <= j < t.len() && j != i && j != i + 1 ==> #[trigger] r[j] == t[j]
            &&& r[i].left == t[i].left && r[i].top == t[i].top && r[i].right == t[i].right
            &&& r[i + 1].left == t[i + 1].left && r[i + 1].right == t[i + 1].right
            &&& r[i + 1].bottom == t[i + 1].bottom
            &&& border_settled(img, t[i], t[i + 1], backup[i], backup[i + 1], r[i].bottom as int, r[i + 1].top as int)
        }),
{
    let bottom = min_of(t[i].bottom as int, backup[i + 1].top as int);
    let top = max_of(t[i + 1].top as int, backup[i].bottom as int);
    let left = min_of(t[i].left as int, t[i + 1].left as int);
    let right = max_of(t[i].right as int, t[i + 1].right as int);
    lemma_first_blank_is_first(img, left, right, top, bottom);
    lemma_last_blank_is_last(img, left, right, top, bottom);
    let r = clip_pair(img, t, backup, i);
    if top < bottom && exists|y: int| top <= y < bottom && #[trigger] blank_line(img, left, right, y) {
        let w = choose|y: int| top <= y < bottom && #[trigger] blank_line(img, left, right, y);
        assert(blank_line(img, left, right, w));
        let f = first_blank(img, left, right, top, bottom).unwrap();
        let l = last_blank(img, left, right, top, bottom).unwrap();
        assert(f <= l) by {
            if l < f {
                assert(!blank_line(img, left, right, l));
            }
        }
        assert(r[i].bottom == f);
        assert(r[i + 1].top == l);
    }
}

/// What settling all borders (`clip_borders`) makes of staves `t` ordered from top to bottom:
/// every staff keeps its left and right edges, the first keeps its top and the last its bottom,
/// and the border between every two neighbours is settled as `border_settled` says, from the
/// staves as they were given and as they were before they were extended (`backup`).
pub proof fn lemma_clip_borders_settles(img: &GrayPixels, t: Seq<AbsoluteStaff>, backup: Seq<AbsoluteStaff>)
    requires
        t.len() == backup.len(),
    ensures
        ({
            let out = clip_from(img, t, backup, 0);
            &&& out.len() == t.len()
            &&& forall|j: int| 0 <= j < t.len() ==> #[trigger] out[j].left == t[j].left && out[j].right == t[j].right
            &&& t.len() > 0 ==> out[0].top == t[0].top && out[t.len() - 1].bottom == t[t.len() - 1].bottom
            &&& forall|i: int|
                #![trigger out[i]]
                0 <= i < t.len() - 1 ==> border_settled(
                    img,
                    t[i],
                    t[i + 1],
                    backup[i],
                    backup[i + 1],
                    out[i].bottom as int,
                    out[i + 1].top as int,
                )
        }),
{
    lemma_clip_from_settles(img, t, backup, 0);
    let out = clip_from(img, t, backup, 0);
    assert forall|i: int|
        #![trigger out[i]]
        0 <= i < t.len() - 1 implies border_settled(
            img,
            t[i],
            t[i + 1],
            backup[i],
            backup[i + 1],
            out[i].bottom as int,
            out[i + 1].top as int,
        ) by {
        assert(0 <= i < t.len() - 1);
    }
}

proof fn lemma_clip_from_settles(img: &GrayPixels, t: Seq<AbsoluteStaff>, backup: Seq<AbsoluteStaff>, k: int)
    requires
        t.len() == backup.len(),
        0 <= k,
    ensures
        ({
            let out = clip_from(img, t, backup, k);
            &&& out.len() == t.len()
            &&& forall|j: int| 0 <= j < t.len() ==> #[trigger] out[j].left == t[j].left && out[j].right == t[j].right
            &&& forall|j: int| 0 <= j < k && j < t.len() ==> #[trigger] out[j] == t[j]
            &&& k < t.len() ==> out[k].top == t[k].top
            &&& t.len() > 0 && k < t.len() ==> out[t.len() - 1].bottom == t[t.len() - 1].bottom
            &&& forall|i: int|
                #![trigger out[i]]
                k <= i < t.len() - 1 ==> border_settled(
                    img,
                    t[i],
                    t[i + 1],
                    backup[i],
                    backup[i + 1],
                    out[i].bottom as int,
                    out[i + 1].top as int,
                )
        }),
    decreases t.len() - k,
{
    if k + 1 < t.len() {
        let u = clip_pair(img, t, backup, k);
        lemma_clip_pair_settles(img, t, backup, k);
        lemma_clip_from_settles(img, u, backup, k + 1);
        let out = clip_from(img, t, backup, k);
        assert(out == clip_from(img, u, backup, k + 1));
        assert(out[k] == u[k]);
        assert forall|j: int| 0 <= j < t.len() implies #[trigger] out[j].left == t[j].left && out[j].right
            == t[j].right by {
            assert(out[j].left == u[j].left);
            if j != k && j != k + 1 {
                assert(u[j] == t[j]);
            }
        }
        assert forall|j: int| 0 <= j < k && j < t.len() implies #[trigger] out[j] == t[j] by {
            assert(out[j] == u[j]);
            assert(u[j] == t[j]);
        }
        if k + 1 < t.len() - 1 {
            assert(u[t.len() - 1] == t[t.len() - 1]);
        }
        assert forall|i: int| #![trigger out[i]] k <= i < t.len() - 1 implies border_settled(
            img,
            t[i],
            t[i + 1],
            backup[i],
            backup[i + 1],
            out[i].bottom as int,
            out[i + 1].top as int,
        ) by {
            if i == k {
                assert(out[k + 1].top == u[k + 1].top);
            } else {
                assert(u[i + 1] == t[i + 1]);
                if i > k + 1 {
                    assert(u[i] == t[i]);
                }
                assert(u[i].bottom == t[i].bottom && u[i].left == t[i].left && u[i].right == t[i].right);
                assert(border_settled(img, u[i], u[i + 1], backup[i], backup[i + 1], out[i].bottom as int, out[i + 1].top as int));
            }
        }
    }
}

/// Settles the borders between neighbouring staves (see `clip_from`), with `backup` the staves
/// before they were extended.
pub fn clip_borders(img: &GrayPixels, staves: Vec<AbsoluteStaff>, backup: &Vec<AbsoluteStaff>) -> (out: Vec<
    AbsoluteStaff,
>)
    requires
        img.well_formed(),
        img.width < 0x100_0000,
        staves.len() == backup.len(),
        all_inside(staves@, img.width as int, img.height as int),
        all_inside(backup@, img.width as int, img.height as int),
    ensures
        out@ == clip_from(img, staves@, backup@, 0),
        all_inside(out@, img.width as int, img.height as int),
        out.len() == staves.len(),
{
    let mut t = staves;
    if t.len() < 2 {
        return t;
    }
    let mut i: usize = 0;
    while i < t.len() - 1
        invariant
            img.well_formed(),
            img.width < 0x100_0000,
            t.len() == staves.len(),
            t.len() == backup.len(),
            t.len() >= 2,
            i <= t.len() - 1,
            all_inside(t@, img.width as int, img.height as int),
            all_inside(backup@, img.width as int, img.height as int),
            clip_from(img, t@, backup@, i as int) == clip_from(img, staves@, backup@, 0),
        decreases t.len() - i,
    {
        let ghost before = t@;
        proof {
            assert(t@[i as int].inside(img.width as int, img.height as int));
            assert(t@[i + 1].inside(img.width as int, img.height as int));
            assert(backup@[i as int].inside(img.width as int, img.height as int));
            assert(backup@[i + 1].inside(img.width as int, img.height as int));
        }
        let a0 = t[i];
        let b0 = t[i + 1];
        let a = AbsoluteStaff { bottom: min_u32(a0.bottom, backup[i + 1].top), ..a0 };
        let b = AbsoluteStaff { top: max_u32(b0.top, backup[i].bottom), ..b0 };
        let left = min_u32(a.left, b.left);
        let right = max_u32(a.right, b.right);
        let mut upper = a;
        let mut lower = b;
        if a.bottom > b.top {
            let mut first: Option<u32> = None;
            let mut last: Option<u32> = None;
            let mut y = b.top;
            while y < a.bottom
                invariant
                    img.well_formed(),
                    img.width < 0x100_0000,
                    left <= right < img.width,
                    a.bottom < img.height,
                    b.top <= y <= a.bottom,
                    first matches Some(f) ==> first_blank(img, left as int, right as int, b.top as int, y as int) == Some(f as int),
                    first is None ==> first_blank(img, left as int, right as int, b.top as int, y as int) is None,
                    last matches Some(l) ==> last_blank(img, left as int, right as int, b.top as int, y as int) == Some(l as int),
                    last is None ==> last_blank(img, left as int, right as int, b.top as int, y as int) is None,
                decreases a.bottom - y,
            {
                if is_blank_line(img, left, right, y) {
                    if first.is_none() {
                        first = Some(y);
                    }
                    last = Some(y);
                }
                y = y + 1;
            }
            proof {
                lemma_first_blank_range(img, left as int, right as int, b.top as int, a.bottom as int);
            }
            match (first, last) {
                (Some(f), Some(l)) => {
                    upper = AbsoluteStaff { bottom: f, ..a };
                    lower = AbsoluteStaff { top: l, ..b };
                },
                _ => {},
            }
        }
        t.set(i, upper);
        t.set(i + 1, lower);
        proof {
            assert(t@ =~= clip_pair(img, before, backup@, i as int));
            assert forall|k: int| 0 <= k < t.len() implies #[trigger] t@[k].inside(
                img.width as int,
                img.height as int,
            ) by {
                assert(before[k].inside(img.width as int, img.height as int));
            }
        }
        i = i + 1;
    }
    t
}

/// The labels of the page's dark components: the page blurred with a 5x5 box, every pixel
/// above 220 white and every other black.
pub open spec fn page_labels(img: &GrayPixels) -> Seq<u32> {
    component_labels(
        img.width,
        img.height,
        thresholded(box_filtered(img.width, img.height, img.pixels@, 2, 2), 220),
        true,
        255,
    )
}

/// What the refinement makes of the raw staff boxes: cut to the image and widened to their
/// content, ordered from top to bottom with overlaps cut in the middle, doubled in height,
/// merged per system, extended along their components and to nearby content, and with the
/// borders between neighbours settled.
pub open spec fn refined_staves(raw: Seq<AbsoluteStaff>, img: &GrayPixels) -> Seq<AbsoluteStaff> {
    if raw.len() == 0 {
        raw
    } else {
        let wide = raw.map_values(|s: AbsoluteStaff| widened(img, clamped(s, img.width, img.height)));
        let split = split_from(sorted_by_top(wide), 0);
        let stretched = split.map_values(|s: AbsoluteStaff| doubled(s, img.height));
        let systems = merged_systems(img, stretched);
        let labels = page_labels(img);
        let grown = systems.map_values(
            |s: AbsoluteStaff| expanded(img, followed(labels, img.width, img.height, s)),
        );
        clip_from(img, grown, systems, 0)
    }
}

/// The staff is at least a fifth of the page width wide and at least a hundredth of the page
/// width high (a box whose bottom lies above its top is not).
pub open spec fn large_enough(s: AbsoluteStaff, width: int) -> bool {
    &&& 5 * (s.right - s.left) >= width
    &&& 100 * (s.bottom - s.top) >= width
}

/// The staves of `t` that are `large_enough`, in their order.
pub open spec fn large_ones(t: Seq<AbsoluteStaff>, width: int) -> Seq<AbsoluteStaff>
    decreases t.len(),
{
    if t.len() == 0 {
        t
    } else {
        let rest = large_ones(t.drop_last(), width);
        if large_enough(t.last(), width) {
            rest.push(t.last())
        } else {
            rest
        }
    }
}

/// Leaving out the small staves keeps, in their order, exactly the staves at least a fifth of
/// the page wide and a hundredth of the page width high.
pub proof fn lemma_large_ones_keeps_the_large(t: Seq<AbsoluteStaff>, width: int)
    ensures
        large_ones(t, width) == t.filter(
            |s: AbsoluteStaff| s.right - s.left >= (width + 4) / 5 && s.bottom - s.top >= (width + 99) / 100,
        ),
    decreases t.len(),
{
    reveal(Seq::filter);
    let f = |s: AbsoluteStaff| s.right - s.left >= (width + 4) / 5 && s.bottom - s.top >= (width + 99) / 100;
    if t.len() > 0 {
        lemma_large_ones_keeps_the_large(t.drop_last(), width);
        let s = t.last();
        assert(large_enough(s, width) == f(s)) by (nonlinear_arith)
            requires
                f(s) == (s.right - s.left >= (width + 4) / 5 && s.bottom - s.top >= (width + 99) / 100),
                large_enough(s, width) == (5 * (s.right - s.left) >= width && 100 * (s.bottom - s.top) >= width),
        ;
    }
}

/// Whether a staff is `large_enough` for a page `width` pixels wide.
pub fn is_large_enough(s: &AbsoluteStaff, width: u32) -> (b: bool)
    ensures
        b == large_enough(*s, width as int),
{
    if s.right < s.left || s.bottom < s.top {
        return false;
    }
    5 * ((s.right - s.left) as u64) >= width as u64 && 100 * ((s.bottom - s.top) as u64) >= width as u64
}

/// Keeps the staves that are `large_enough` for a page `width` pixels wide.
pub fn keep_large(staves: &Vec<AbsoluteStaff>, width: u32, height: u32) -> (out: Vec<AbsoluteStaff>)
    requires
        all_inside(staves@, width as int, height as int),
    ensures
        out@ == large_ones(staves@, width as int),
        out.len() <= staves.len(),
        all_inside(out@, width as int, height as int),
        forall|k: int| 0 <= k < out.len() ==> large_enough(#[trigger] out@[k], width as int),
{
    let mut out: Vec<AbsoluteStaff> = Vec::new();
    let mut i: usize = 0;
    while i < staves.len()
        invariant
            all_inside(staves@, width as int, height as int),
            i <= staves.len(),
            out@ == large_ones(staves@.subrange(0, i as int), width as int),
            out.len() <= i,
            all_inside(out@, width as int, height as int),
            forall|k: int| 0 <= k < out.len() ==> large_enough(#[trigger] out@[k], width as int),
        decreases staves.len() - i,
    {
        let s = staves[i];
        proof {
            assert(staves@.subrange(0, i + 1).drop_last() =~= staves@.subrange(0, i as int));
            assert(staves@[i as int].inside(width as int, height as int));
        }
        if is_large_enough(&s, width) {
            let ghost before = out@;
            out.push(s);
            proof {
                assert forall|k: int| 0 <= k < out.len() implies #[trigger] out@[k].inside(
                    width as int,
                    height as int,
                ) by {
                    if k < out.len() - 1 {
                        assert(out@[k] == before[k]);
                    }
                }
            }
        }
        i = i + 1;
    }
    assert(staves@.subrange(0, staves.len() as int) =~= staves@);
    out
}

/// The raw box fits the image once its right and bottom edges are cut to it.
pub open spec fn usable_raw(s: AbsoluteStaff, width: u32, height: u32) -> bool {
    clamped(s, width, height).fits(width as int, height as int)
}

/// Refines the staff boxes that the recognition service reported for a page image (see
/// `refined_staves`) and keeps those that are `large_enough`.
pub fn post_process(raw_staves: Vec<AbsoluteStaff>, img: &GrayPixels) -> (out: Vec<AbsoluteStaff>)
    requires
        img.well_formed(),
        img.width < 0x100_0000 - 4,
        img.height < 0x100_0000 - 4,
        forall|k: int| 0 <= k < raw_staves.len() ==> #[trigger] usable_raw(raw_staves@[k], img.width, img.height),
    ensures
        out@ == large_ones(refined_staves(raw_staves@, img), img.width as int),
        out.len() <= raw_staves.len(),
        all_inside(out@, img.width as int, img.height as int),
        forall|k: int| 0 <= k < out.len() ==> large_enough(#[trigger] out@[k], img.width as int),
{
    if raw_staves.len() == 0 {
        return Vec::new();
    }
    let width = img.width;
    let height = img.height;
    proof {
        assert(usable_raw(raw_staves@[0], width, height));
        assert(width >= 5 && height >= 2);
    }
    let mut wide: Vec<AbsoluteStaff> = Vec::new();
    let mut i: usize = 0;
    while i < raw_staves.len()
        invariant
            img.well_formed(),
            width == img.width,
            height == img.height,
            raw_staves.len() >= 1,
            width >= 5,
            height >= 2,
            i <= raw_staves.len(),
            forall|k: int| 0 <= k < raw_staves.len() ==> #[trigger] usable_raw(raw_staves@[k], img.width, img.height),
            wide.len() == i,
            forall|k: int| 0 <= k < i ==> #[trigger] wide@[k] == widened(img, clamped(raw_staves@[k], width, height)),
            forall|k: int| 0 <= k < i ==> #[trigger] wide@[k].inside(width as int, height as int),
        decreases raw_staves.len() - i,
    {
        let r = raw_staves[i];
        proof {
            assert(usable_raw(raw_staves@[i as int], width, height));
        }
        let c = AbsoluteStaff { right: min_u32(r.right, width - 1), bottom: min_u32(r.bottom, height - 1), ..r };
        let w = widen(img, c);
        wide.push(w);
        i = i + 1;
    }
    let ghost wide_view = wide@;
    assert(wide@ =~= raw_staves@.map_values(|s: AbsoluteStaff| widened(img, clamped(s, width, height))));
    proof {
        lemma_sort_keeps_inside(wide@, width as int, height as int);
    }
    let sorted = sort_by_top(wide);
    proof {
        lemma_split_keeps_inside(sorted@, 0, width as int, height as int);
    }
    let split = split_overlaps(sorted);
    let stretched = double_heights(split, height);
    assert(stretched@ =~= split@.map_values(|s: AbsoluteStaff| doubled(s, height)));
    proof {
        assert forall|k: int| 0 <= k < stretched.len() implies #[trigger] stretched@[k].inside(
            width as int,
            height as int,
        ) by {
            assert(split@[k].inside(width as int, height as int));
        }
    }
    let systems = merge_systems(img, stretched);
    proof {
        assert(width * height >= 1) by (nonlinear_arith)
            requires
                width >= 1,
                height >= 1,
        ;
    }
    let blurred = box_filter(width, height, &img.pixels, 2, 2);
    let dark = threshold(width, height, blurred, 220);
    assert(dark@ =~= thresholded(blurred@, 220));
    proof {
        assert forall|k: int| 0 <= k < dark.len() implies #[trigger] dark@[k] == 0 || dark@[k] == 255 by {
            assert(dark@[k] == (if blurred@[k] > 220 {
                255u8
            } else {
                0u8
            }));
        }
        if width * height == 1 {
            assert(width >= 5) by {
                assert(4 <= clamped(raw_staves@[0], width, height).right);
            }
            assert(width * height >= 5) by (nonlinear_arith)
                requires
                    width >= 5,
                    height >= 1,
            ;
        }
    }
    let labels = connected_components(width, height, dark, Neighbours::Eight, 255);
    let mut grown: Vec<AbsoluteStaff> = Vec::new();
    let mut j: usize = 0;
    while j < systems.len()
        invariant
            img.well_formed(),
            width == img.width,
            height == img.height,
            img.width < 0x100_0000 - 4,
            labels.len() == width * height,
            labels@ == page_labels(img),
            forall|k: int| 0 <= k < labels.len() ==> #[trigger] labels@[k] <= width * height,
            all_inside(systems@, width as int, height as int),
            j <= systems.len(),
            grown.len() == j,
            forall|k: int| 0 <= k < j ==> #[trigger] grown@[k] == expanded(img, followed(labels@, width, height, systems@[k])),
            forall|k: int| 0 <= k < j ==> #[trigger] grown@[k].inside(width as int, height as int),
        decreases systems.len() - j,
    {
        proof {
            assert(systems@[j as int].inside(width as int, height as int));
        }
        let f = follow_components(&labels, width, height, systems[j]);
        let e = expand_to_content(img, f);
        grown.push(e);
        j = j + 1;
    }
    assert(grown@ =~= systems@.map_values(
        |s: AbsoluteStaff| expanded(img, followed(labels@, width, height, s)),
    ));
    let refined = clip_borders(img, grown, &systems);
    keep_large(&refined, width, height)
}

} // verus!
