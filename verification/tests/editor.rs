use dinoscore::collection::{PageIndex, SectionMeta, SongMetaV4, StaffIndex, StaffV3};
use dinoscore::editor::EditorSongFile;
use std::collections::BTreeMap;

fn st(page: usize, top: u64) -> StaffV3<()> {
    StaffV3 { page: PageIndex(page), top, geometry: () }
}

fn layout(e: &EditorSongFile<String, ()>) -> Vec<(usize, u64)> {
    e.get_staves().iter().map(|s| (s.page.0, s.top)).collect()
}

fn three_pages() -> EditorSongFile<String, ()> {
    let mut e = EditorSongFile::new();
    e.add_page("a".to_string());
    e.add_page("b".to_string());
    e.add_page("c".to_string());
    e
}

#[test]
fn new_editor_is_empty() {
    let e: EditorSongFile<String, ()> = EditorSongFile::new();
    assert!(e.get_staves().is_empty());
    assert!(e.get_pages().is_empty());
    assert_eq!(e.song_name, "");
    assert_eq!(e.song_composer, "");
}

#[test]
fn new_editors_get_different_identifiers() {
    let a: EditorSongFile<String, ()> = EditorSongFile::new();
    let b: EditorSongFile<String, ()> = EditorSongFile::new();
    assert_ne!(a.song_uuid, b.song_uuid);
}

#[test]
fn added_staves_go_after_their_page() {
    let mut e = three_pages();
    e.add_staves(PageIndex(1), vec![st(1, 10), st(1, 20)]);
    e.add_staves(PageIndex(0), vec![st(0, 5)]);
    assert_eq!(layout(&e), vec![(0, 5), (1, 10), (1, 20)]);
    // The first staff always starts a piece and a section.
    assert_eq!(e.piece_start(StaffIndex(0)), Some(&String::new()));
    assert_eq!(e.section_start(StaffIndex(0)), Some(SectionMeta::default()));
    // The staff that was first before keeps its marks.
    assert_eq!(e.piece_start(StaffIndex(1)), Some(&String::new()));
    assert_eq!(e.piece_start(StaffIndex(2)), None);
    assert_eq!(e.section_start(StaffIndex(2)), None);
}

#[test]
fn add_staff_keeps_top_order_on_its_page() {
    let mut e = three_pages();
    e.add_staves(PageIndex(1), vec![st(1, 10), st(1, 20)]);
    e.add_staves(PageIndex(0), vec![st(0, 5)]);
    assert_eq!(e.add_staff(PageIndex(1), st(1, 15)), 1);
    assert_eq!(layout(&e), vec![(0, 5), (1, 10), (1, 15), (1, 20)]);
    assert_eq!(e.add_staff(PageIndex(2), st(2, 1)), 0);
    assert_eq!(e.add_staff(PageIndex(1), st(1, 99)), 3);
    assert_eq!(layout(&e), vec![(0, 5), (1, 10), (1, 15), (1, 20), (1, 99), (2, 1)]);
}

#[test]
fn delete_and_modify_count_within_the_page() {
    let mut e = three_pages();
    e.add_staves(PageIndex(1), vec![st(1, 10), st(1, 15), st(1, 20), st(1, 99)]);
    e.add_staves(PageIndex(0), vec![st(0, 5)]);
    e.delete_staff(PageIndex(1), 0);
    assert_eq!(layout(&e), vec![(0, 5), (1, 15), (1, 20), (1, 99)]);
    assert_eq!(e.modify_staff(PageIndex(1), 0, st(1, 50)), 1);
    assert_eq!(layout(&e), vec![(0, 5), (1, 20), (1, 50), (1, 99)]);
}

#[test]
fn deleting_the_first_staff_marks_the_next() {
    let mut e = three_pages();
    e.add_staves(PageIndex(0), vec![st(0, 5), st(0, 6)]);
    e.delete_staff(PageIndex(0), 0);
    assert_eq!(e.piece_start(StaffIndex(0)), Some(&String::new()));
    assert_eq!(e.section_start(StaffIndex(0)), Some(SectionMeta::default()));
}

#[test]
fn counts_of_staves_and_sections() {
    let mut e = three_pages();
    e.add_staves(PageIndex(0), vec![st(0, 1), st(0, 2)]);
    e.add_staves(PageIndex(2), vec![st(2, 1), st(2, 2)]);
    assert_eq!(e.count_staves_before(PageIndex(0)), 0);
    assert_eq!(e.count_staves_before(PageIndex(1)), 2);
    assert_eq!(e.count_staves_before(PageIndex(2)), 2);
    assert_eq!(e.count_staves_before(PageIndex(3)), 4);
    e.set_section_start(StaffIndex(2), true);
    assert_eq!(e.count_sections_until(StaffIndex(1)), 1);
    assert_eq!(e.count_sections_until(StaffIndex(2)), 2);
    assert_eq!(e.count_sections_until(StaffIndex(3)), 2);
}

#[test]
fn get_page_lists_the_staves_of_that_page() {
    let mut e = three_pages();
    e.add_staves(PageIndex(0), vec![st(0, 1)]);
    e.add_staves(PageIndex(1), vec![st(1, 7), st(1, 8)]);
    let (page, staves) = e.get_page(PageIndex(1));
    assert_eq!(page, "b");
    assert_eq!(staves.iter().map(|s| s.top).collect::<Vec<_>>(), vec![7, 8]);
    assert_eq!(e.get_pages().len(), 3);
}

#[test]
fn removing_a_page_drops_its_staves_and_renumbers() {
    let mut e = three_pages();
    e.add_staves(PageIndex(0), vec![st(0, 1)]);
    e.add_staves(PageIndex(1), vec![st(1, 7)]);
    e.add_staves(PageIndex(2), vec![st(2, 3)]);
    e.remove_page(PageIndex(0));
    assert_eq!(e.get_pages(), &vec!["b".to_string(), "c".to_string()]);
    assert_eq!(layout(&e), vec![(0, 7), (1, 3)]);
    assert_eq!(e.piece_start(StaffIndex(0)), Some(&String::new()));
    assert_eq!(e.section_start(StaffIndex(0)), Some(SectionMeta::default()));
}

#[test]
fn piece_and_section_settings() {
    let mut e = three_pages();
    e.add_staves(PageIndex(0), vec![st(0, 1), st(0, 2), st(0, 3)]);
    e.set_piece_start(StaffIndex(1), true);
    assert_eq!(e.piece_start(StaffIndex(1)), Some(&String::new()));
    // A piece start is also a section start.
    assert_eq!(e.section_start(StaffIndex(1)), Some(SectionMeta::default()));
    e.set_piece_name(StaffIndex(1), "Allegro".to_string());
    assert_eq!(e.piece_start(StaffIndex(1)), Some(&"Allegro".to_string()));
    e.set_piece_start(StaffIndex(1), true);
    assert_eq!(e.piece_start(StaffIndex(1)), Some(&"Allegro".to_string()));
    e.set_section_repetition(StaffIndex(1), true);
    e.set_section_end(StaffIndex(1), true);
    assert_eq!(e.section_start(StaffIndex(1)), Some(SectionMeta { is_repetition: true, section_end: true }));
    e.set_piece_start(StaffIndex(1), false);
    assert_eq!(e.piece_start(StaffIndex(1)), None);
    assert_eq!(e.section_start(StaffIndex(1)), Some(SectionMeta { is_repetition: true, section_end: true }));
    e.set_section_start(StaffIndex(1), false);
    assert_eq!(e.section_start(StaffIndex(1)), None);
    e.set_section_start(StaffIndex(2), true);
    assert_eq!(e.section_start(StaffIndex(2)), Some(SectionMeta::default()));
}

#[test]
fn staff_controls_follow_the_selected_staff() {
    let mut e = three_pages();
    e.add_staves(PageIndex(0), vec![st(0, 1), st(0, 2)]);
    let none = e.staff_controls(None);
    assert!(!none.piece_start_sensitive && !none.section_start_sensitive && !none.section_end_sensitive);
    let first = e.staff_controls(Some(StaffIndex(0)));
    assert!(!first.piece_start_sensitive);
    assert!(first.piece_start_active);
    assert!(first.piece_name_sensitive);
    assert!(!first.section_start_sensitive);
    assert!(first.section_start_active);
    assert!(first.section_repetition_sensitive);
    e.set_section_start(StaffIndex(1), true);
    e.set_section_repetition(StaffIndex(1), true);
    let second = e.staff_controls(Some(StaffIndex(1)));
    assert!(second.piece_start_sensitive);
    assert!(!second.piece_start_active);
    assert_eq!(second.piece_name, "");
    assert!(second.section_start_sensitive);
    assert!(second.section_start_active);
    assert!(second.section_repetition_active);
    assert!(!second.section_end_active);
}

#[test]
fn load_then_save_keeps_the_song() {
    let mut pieces = BTreeMap::new();
    pieces.insert(0, "One".to_string());
    pieces.insert(2, "Two".to_string());
    let mut sections = BTreeMap::new();
    sections.insert(0, SectionMeta::default());
    sections.insert(1, SectionMeta { is_repetition: true, section_end: false });
    let id = uuid::Uuid::from_u128(42);
    let song = SongMetaV4 {
        n_pages: 2,
        staves: vec![st(0, 1), st(0, 2), st(1, 1)],
        piece_starts: pieces.clone(),
        section_starts: sections.clone(),
        song_uuid: id,
        version_uuid: id,
        title: Some("Song".to_string()),
        composer: None,
    };
    let mut e: EditorSongFile<String, ()> = EditorSongFile::new();
    e.add_page("a".to_string());
    e.add_page("b".to_string());
    e.load(song);
    assert_eq!(e.song_name, "Song");
    assert_eq!(e.song_composer, "");
    assert_eq!(e.song_uuid, id);
    assert_eq!(e.piece_start(StaffIndex(2)), Some(&"Two".to_string()));
    let saved = e.to_song_meta();
    assert_eq!(saved.n_pages, 2);
    assert_eq!(saved.staves.iter().map(|s| (s.page.0, s.top)).collect::<Vec<_>>(), vec![(0, 1), (0, 2), (1, 1)]);
    assert_eq!(saved.piece_starts, pieces);
    assert_eq!(saved.section_starts, sections);
    assert_eq!(saved.song_uuid, id);
    assert_ne!(saved.version_uuid, id);
    assert_eq!(saved.title, Some("Song".to_string()));
    assert_eq!(saved.composer, None);
    assert_eq!(saved.check_invariants(), Ok(()));
}

#[test]
fn add_staff_goes_after_staves_at_the_same_height() {
    let mut e = three_pages();
    e.add_staves(PageIndex(1), vec![st(1, 10), st(1, 20)]);
    // Two staves of the page lie no lower than 10 or 20, so the new one is the page's staff 1
    // and 2 respectively.
    assert_eq!(e.add_staff(PageIndex(1), st(1, 10)), 1);
    assert_eq!(e.add_staff(PageIndex(1), st(1, 20)), 3);
    assert_eq!(layout(&e), vec![(1, 10), (1, 10), (1, 20), (1, 20)]);
    let (_, staves) = e.get_page(PageIndex(1));
    assert_eq!(staves[3].top, 20);
}

#[test]
fn the_staves_of_a_page_follow_those_before_it() {
    let mut e = three_pages();
    e.add_staves(PageIndex(0), vec![st(0, 1), st(0, 2)]);
    e.add_staves(PageIndex(1), vec![st(1, 7), st(1, 8), st(1, 9)]);
    e.add_staves(PageIndex(2), vec![st(2, 4)]);
    let all = e.get_staves();
    for p in 0..3 {
        let before = e.count_staves_before(PageIndex(p));
        let (_, on_page) = e.get_page(PageIndex(p));
        for (k, s) in on_page.iter().enumerate() {
            assert_eq!(all[before + k].page, s.page);
            assert_eq!(all[before + k].top, s.top);
        }
    }
    assert_eq!(e.count_staves_before(PageIndex(1)), 2);
    assert_eq!(e.get_page(PageIndex(1)).1.len(), 3);
}
