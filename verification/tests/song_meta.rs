use dinoscore::collection::{
    InvalidSong, PageIndex, SectionMeta, SongMetaV4, StaffCountMismatch, StaffIndex, StaffV3,
};
use std::collections::BTreeMap;

fn staff(page: usize, top: u64) -> StaffV3<()> {
    StaffV3 { page: PageIndex(page), top, geometry: () }
}

fn song(pages: &[usize], n_pages: usize, pieces: &[usize], sections: &[(usize, bool, bool)]) -> SongMetaV4<()> {
    let mut piece_starts = BTreeMap::new();
    for (i, p) in pieces.iter().enumerate() {
        piece_starts.insert(*p, format!("piece {}", i));
    }
    let mut section_starts = BTreeMap::new();
    for (s, rep, end) in sections {
        section_starts.insert(*s, SectionMeta { is_repetition: *rep, section_end: *end });
    }
    SongMetaV4 {
        n_pages,
        staves: pages.iter().enumerate().map(|(i, p)| staff(*p, i as u64)).collect(),
        piece_starts,
        section_starts,
        song_uuid: uuid::Uuid::nil(),
        version_uuid: uuid::Uuid::nil(),
        title: Some("Title".to_string()),
        composer: None,
    }
}

#[test]
fn valid_song_passes_check() {
    let s = song(&[0, 0, 1, 1, 2], 3, &[0, 3], &[(0, false, false), (2, true, false)]);
    assert_eq!(s.check_invariants(), Ok(()));
}

#[test]
fn song_without_staves_is_refused() {
    let s = song(&[], 3, &[0], &[(0, false, false)]);
    assert_eq!(s.check_invariants(), Err(InvalidSong::NoStaves));
}

#[test]
fn staff_beyond_last_page_is_refused() {
    let s = song(&[0, 4, 5], 3, &[0], &[(0, false, false)]);
    assert_eq!(s.check_invariants(), Err(InvalidSong::PageOutOfBounds { page: 4, n_pages: 3 }));
}

#[test]
fn staff_on_page_equal_to_page_count_is_refused() {
    // Pages count from 0: a song of 3 pages has no page 3.
    let s = song(&[0, 3], 3, &[0], &[(0, false, false)]);
    assert_eq!(s.check_invariants(), Err(InvalidSong::PageOutOfBounds { page: 3, n_pages: 3 }));
    let s = song(&[0, 2], 3, &[0], &[(0, false, false)]);
    assert_eq!(s.check_invariants(), Ok(()));
}

#[test]
fn decreasing_pages_are_refused() {
    let s = song(&[0, 2, 1, 2], 3, &[0], &[(0, false, false)]);
    assert_eq!(s.check_invariants(), Err(InvalidSong::PagesNotIncreasing { before: 2, after: 1 }));
}

#[test]
fn song_must_start_with_a_piece() {
    let s = song(&[0, 1], 2, &[1], &[(0, false, false)]);
    assert_eq!(s.check_invariants(), Err(InvalidSong::NoPieceAtStart));
}

#[test]
fn song_must_start_with_a_section() {
    let s = song(&[0, 1], 2, &[0], &[(1, false, false)]);
    assert_eq!(s.check_invariants(), Err(InvalidSong::NoSectionAtStart));
}

#[test]
fn piece_start_beyond_staves_is_refused() {
    let s = song(&[0, 1], 2, &[0, 2], &[(0, false, false)]);
    assert_eq!(s.check_invariants(), Err(InvalidSong::PieceStartOutOfBounds));
}

#[test]
fn section_start_beyond_staves_is_refused() {
    let s = song(&[0, 1], 2, &[0], &[(0, false, false), (5, false, false)]);
    assert_eq!(s.check_invariants(), Err(InvalidSong::SectionStartOutOfBounds));
}

#[test]
fn sections_span_up_to_the_next_start() {
    let s = song(&[0, 0, 1, 1, 2, 2], 3, &[0], &[(0, false, false), (2, true, false), (4, false, true)]);
    let sections = s.sections();
    assert_eq!(sections.len(), 3);
    assert_eq!(sections[0], (StaffIndex(0)..=StaffIndex(1), false));
    // The next section also ends this one, so it reaches up to that staff.
    assert_eq!(sections[1], (StaffIndex(2)..=StaffIndex(4), true));
    assert_eq!(sections[2], (StaffIndex(4)..=StaffIndex(5), false));
}

#[test]
fn page_of_piece_counts_from_the_piece_start() {
    let s = song(&[0, 0, 1, 1, 1, 2], 3, &[0, 3], &[(0, false, false)]);
    // Positions on a page count from 0.
    assert_eq!(s.page_of_piece(StaffIndex(4)), (PageIndex(0), StaffIndex(1)));
    assert_eq!(s.page_of_piece(StaffIndex(5)), (PageIndex(1), StaffIndex(0)));
    assert_eq!(s.page_of_piece(StaffIndex(2)), (PageIndex(1), StaffIndex(0)));
    assert_eq!(s.page_of_piece(StaffIndex(1)), (PageIndex(0), StaffIndex(1)));
    assert_eq!(s.page_of_piece(StaffIndex(0)), (PageIndex(0), StaffIndex(0)));
    assert_eq!(s.page_of_piece(StaffIndex(3)), (PageIndex(0), StaffIndex(0)));
}

#[test]
fn page_of_piece_counts_staves_within_the_page_from_zero() {
    let s = song(&[0, 0, 1, 1, 1], 2, &[0, 3], &[(0, false, false)]);
    assert_eq!(s.page_of_piece(StaffIndex(4)), (PageIndex(0), StaffIndex(1)));
}

#[test]
fn staff_reports_its_page() {
    assert_eq!(staff(7, 3).page(), PageIndex(7));
}

#[test]
fn default_section_meta_is_plain() {
    let m = SectionMeta::default();
    assert!(!m.is_repetition);
    assert!(!m.section_end);
}

#[test]
fn detected_staves_replace_those_of_their_page() {
    let mut s = song(&[0, 1, 1, 2], 3, &[0, 2], &[(0, false, false)]);
    assert_eq!(s.replace_page_staves(1, vec![staff(1, 100), staff(1, 200)]), Ok(()));
    assert_eq!(s.staves.iter().map(|st| (st.page.0, st.top)).collect::<Vec<_>>(), vec![(0, 0), (1, 100), (1, 200), (2, 3)]);
    // The pieces stay at their staff positions, and the song still passes the check.
    assert_eq!(s.piece_starts.keys().copied().collect::<Vec<_>>(), vec![0, 2]);
    assert_eq!(s.check_invariants(), Ok(()));
    assert_eq!(
        s.replace_page_staves(1, vec![staff(1, 5)]),
        Err(StaffCountMismatch { expected: 2, detected: 1 })
    );
    assert_eq!(s.staves[1].top, 100);
    // A page without staves is left alone.
    assert_eq!(s.replace_page_staves(7, vec![staff(7, 5)]), Ok(()));
    assert_eq!(s.staves.len(), 4);
}
