use dinoscore::collection::{PageIndex, SectionMeta, SongMetaV4, StaffIndex, StaffV3};
use dinoscore::layout::{column_ranges, fixed_height_column_starts, PageLayout, StaffLayout};
use dinoscore::navigation::{
    current_piece_index, enabled_actions, next_page_position, next_piece, page_end, page_of_position,
    page_start, piece_position, previous_page_position, previous_page_strict_position, previous_piece,
    section_start,
};
use std::collections::BTreeMap;

fn pages(counts: &[usize]) -> PageLayout<()> {
    let mut next = 0;
    let mut pages = Vec::new();
    for c in counts {
        let mut page = Vec::new();
        for _ in 0..*c {
            page.push(StaffLayout { index: StaffIndex(next), place: () });
            next += 1;
        }
        pages.push(page);
    }
    PageLayout { pages, random_id: uuid::Uuid::nil() }
}

fn song() -> SongMetaV4<()> {
    let mut piece_starts = BTreeMap::new();
    piece_starts.insert(0, "A".to_string());
    piece_starts.insert(3, "B".to_string());
    let mut section_starts = BTreeMap::new();
    section_starts.insert(0, SectionMeta::default());
    section_starts.insert(2, SectionMeta { is_repetition: true, section_end: false });
    SongMetaV4 {
        n_pages: 2,
        staves: (0..6).map(|i| StaffV3 { page: PageIndex(i / 3), top: i as u64, geometry: () }).collect(),
        piece_starts,
        section_starts,
        song_uuid: uuid::Uuid::nil(),
        version_uuid: uuid::Uuid::nil(),
        title: None,
        composer: None,
    }
}

#[test]
fn center_staff_and_page_of_staff() {
    let l = pages(&[2, 3, 1]);
    assert_eq!(l.get_center_staff(PageIndex(0)), StaffIndex(1));
    assert_eq!(l.get_center_staff(PageIndex(1)), StaffIndex(3));
    assert_eq!(l.get_center_staff(PageIndex(2)), StaffIndex(5));
    assert_eq!(l.get_page_of_staff(StaffIndex(0)), PageIndex(0));
    assert_eq!(l.get_page_of_staff(StaffIndex(4)), PageIndex(1));
    assert_eq!(l.get_page_of_staff(StaffIndex(5)), PageIndex(2));
    // The center staff of a page lies on that page.
    for p in 0..3 {
        assert_eq!(l.get_page_of_staff(l.get_center_staff(PageIndex(p))), PageIndex(p));
    }
}

#[test]
fn staves_of_page_in_order() {
    let l = pages(&[2, 3, 1]);
    assert_eq!(l.get_staves_of_page(PageIndex(1)), vec![StaffIndex(2), StaffIndex(3), StaffIndex(4)]);
    assert_eq!(l.get_staves_of_page(PageIndex(2)), vec![StaffIndex(5)]);
}

#[test]
fn fixed_height_columns_break_at_pieces_and_row_count() {
    let mut pieces = BTreeMap::new();
    pieces.insert(0, "A".to_string());
    pieces.insert(3, "B".to_string());
    let starts = fixed_height_column_starts(7, &pieces, 2);
    assert_eq!(starts, vec![StaffIndex(0), StaffIndex(2), StaffIndex(3), StaffIndex(5), StaffIndex(7)]);
    assert_eq!(
        column_ranges(&starts),
        vec![
            (StaffIndex(0), StaffIndex(2)),
            (StaffIndex(2), StaffIndex(3)),
            (StaffIndex(3), StaffIndex(5)),
            (StaffIndex(5), StaffIndex(7)),
        ]
    );
    assert!(column_ranges(&vec![]).is_empty());
}

#[test]
fn page_bounds_of_a_position() {
    let l = pages(&[2, 3, 1]);
    assert_eq!(page_of_position(&l, StaffIndex(4)), PageIndex(1));
    assert_eq!(page_start(&l, StaffIndex(4)), StaffIndex(2));
    assert_eq!(page_end(&l, StaffIndex(4)), StaffIndex(4));
    assert_eq!(page_end(&l, StaffIndex(0)), StaffIndex(1));
}

#[test]
fn going_back_jumps_to_a_repetition() {
    let l = pages(&[2, 3, 1]);
    let s = song();
    assert_eq!(section_start(&s, &l, StaffIndex(5)), Some(StaffIndex(2)));
    assert_eq!(section_start(&s, &l, StaffIndex(2)), None);
    assert_eq!(previous_page_position(&s, &l, StaffIndex(5)), StaffIndex(2));
    assert_eq!(previous_page_position(&s, &l, StaffIndex(3)), StaffIndex(0));
    assert_eq!(previous_page_strict_position(&l, StaffIndex(5)), StaffIndex(2));
    assert_eq!(next_page_position(&l, StaffIndex(1)), StaffIndex(2));
}

#[test]
fn moving_between_pieces() {
    let l = pages(&[2, 3, 1]);
    let s = song();
    assert_eq!(current_piece_index(&s, StaffIndex(4)), 1);
    assert_eq!(current_piece_index(&s, StaffIndex(2)), 0);
    assert_eq!(previous_piece(&s, &l, StaffIndex(5)), StaffIndex(3));
    assert_eq!(previous_piece(&s, &l, StaffIndex(1)), StaffIndex(0));
    assert_eq!(next_piece(&s, &l, StaffIndex(1)), Some(StaffIndex(3)));
    assert_eq!(next_piece(&s, &l, StaffIndex(4)), None);
    assert_eq!(piece_position(&s, 1), StaffIndex(3));
    assert_eq!(piece_position(&s, 0), StaffIndex(0));
}

#[test]
fn enabled_actions_at_the_ends() {
    let l = pages(&[2, 3, 1]);
    let s = song();
    let first = enabled_actions(&s, &l, StaffIndex(0));
    assert!(first.next_page && !first.previous_page && first.next_piece && !first.previous_piece);
    let last = enabled_actions(&s, &l, StaffIndex(5));
    assert!(!last.next_page && last.previous_page && !last.next_piece && last.previous_piece);
}
