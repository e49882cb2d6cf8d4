use dinoscore::collection::{PageIndex, SectionMeta, SongMetaV4, StaffV3};
use dinoscore::library::{scale_mode_of_action, ScaleMode};
use dinoscore::pedal::{page_event_of_controller, page_event_of_message, PageEvent};
use dinoscore::search::{matches_search, normalize, text_contains, trim};
use dinoscore::unsafe_force::Send;
use dinoscore::upgrade::{names_or_empty, page_sizes_needed, sections_from_flags, FormatVersion};
use std::collections::BTreeMap;

fn song(title: Option<&str>, composer: Option<&str>) -> SongMetaV4<()> {
    let mut piece_starts = BTreeMap::new();
    piece_starts.insert(0, String::new());
    let mut section_starts = BTreeMap::new();
    section_starts.insert(0, SectionMeta::default());
    SongMetaV4 {
        n_pages: 1,
        staves: vec![StaffV3 { page: PageIndex(0), top: 0, geometry: () }],
        piece_starts,
        section_starts,
        song_uuid: uuid::Uuid::nil(),
        version_uuid: uuid::Uuid::nil(),
        title: title.map(|t| t.to_string()),
        composer: composer.map(|c| c.to_string()),
    }
}

#[test]
fn trimming_and_normalizing() {
    assert_eq!(trim("  Moonlight\t\n"), "Moonlight");
    assert_eq!(trim("   "), "");
    assert_eq!(trim(""), "");
    assert_eq!(trim("a b"), "a b");
    // Unicode white space counts too; a zero-width space is not white space.
    assert_eq!(trim("\u{3000}\u{A0}Suite\u{2009}\u{85}"), "Suite");
    assert_eq!(trim("\u{200B}x"), "\u{200B}x");
    assert_eq!(normalize("  Für Elise "), "für elise");
    assert_eq!(normalize("ÄÖÜ"), "äöü");
}

#[test]
fn containment() {
    assert!(text_contains("moonlight sonata", "light"));
    assert!(text_contains("abc", ""));
    assert!(!text_contains("abc", "abcd"));
    assert!(!text_contains("abc", "cb"));
}

#[test]
fn search_looks_at_title_and_composer() {
    let s = song(Some("Moonlight Sonata"), Some("Beethoven"));
    assert!(matches_search(&s, "  sonata "));
    assert!(matches_search(&s, "BEET"));
    assert!(!matches_search(&s, "mozart"));
    assert!(matches_search(&s, "   "));
    let untitled = song(None, None);
    assert!(matches_search(&untitled, ""));
    assert!(!matches_search(&untitled, "x"));
}

#[test]
fn search_words_are_matched_one_by_one() {
    let s = song(Some("Fugue"), Some("Bach"));
    assert!(matches_search(&s, "bach fugue"));
    assert!(matches_search(&s, "Fugue   BACH"));
    assert!(!matches_search(&s, "bach sonata"));
    assert!(!matches_search(&s, "bach fugue"
        .replace(' ', "")
        .as_str()));
    let untitled_composer = song(Some("Prelude in C"), None);
    assert!(matches_search(&untitled_composer, "prelude c"));
    assert!(!matches_search(&untitled_composer, "prelude bach"));
}

#[test]
fn pedal_controllers_turn_pages() {
    assert_eq!(page_event_of_controller(67, 127), Some(PageEvent::Next));
    assert_eq!(page_event_of_controller(66, 127), Some(PageEvent::Previous));
    assert_eq!(page_event_of_controller(67, 0), None);
    assert_eq!(page_event_of_controller(64, 127), None);
}

#[test]
fn pedal_messages_are_parsed() {
    assert_eq!(page_event_of_message(0xB0, 67, 127), Some(PageEvent::Next));
    // Any channel of a control change counts.
    assert_eq!(page_event_of_message(0xB5, 66, 127), Some(PageEvent::Previous));
    // The data bytes are read as seven bits.
    assert_eq!(page_event_of_message(0xB0, 67 | 0x80, 127 | 0x80), Some(PageEvent::Next));
    // A note on is no control change.
    assert_eq!(page_event_of_message(0x90, 67, 127), None);
}

#[test]
fn scale_modes_and_actions() {
    assert!(matches!(scale_mode_of_action("fit-staves", 1.5f64), ScaleMode::FitStaves(3)));
    assert!(matches!(scale_mode_of_action("fit-columns", 1.5f64), ScaleMode::FitPages(2)));
    match scale_mode_of_action("manual", 1.5f64) {
        ScaleMode::Zoom(z) => assert_eq!(z, 1.5),
        _ => panic!("expected a zoom"),
    }
    assert_eq!(ScaleMode::<f64>::FitStaves(7).action_string(), "fit-staves");
    assert_eq!(ScaleMode::<f64>::FitPages(1).action_string(), "fit-columns");
    assert_eq!(ScaleMode::Zoom(2.0f64).action_string(), "manual");
    for action in ["fit-staves", "fit-columns", "manual"] {
        assert_eq!(scale_mode_of_action(action, 1.0f64).action_string(), action);
    }
}

#[test]
fn forced_send_gives_back_its_value() {
    let s = Send::new(vec![1, 2, 3]);
    assert_eq!(s.unwrap(), vec![1, 2, 3]);
}

#[test]
fn old_section_flags_become_metadata() {
    let mut flags = BTreeMap::new();
    flags.insert(0, false);
    flags.insert(4, true);
    let sections = sections_from_flags(&flags);
    assert_eq!(sections.len(), 2);
    assert_eq!(sections[&0], SectionMeta { is_repetition: false, section_end: false });
    assert_eq!(sections[&4], SectionMeta { is_repetition: true, section_end: false });
    assert!(sections_from_flags(&BTreeMap::new()).is_empty());
}

#[test]
fn missing_piece_names_become_empty() {
    let mut names = BTreeMap::new();
    names.insert(0, None);
    names.insert(3, Some("Finale".to_string()));
    let out = names_or_empty(&names);
    assert_eq!(out.len(), 2);
    assert_eq!(out[&0], "");
    assert_eq!(out[&3], "Finale");
}

#[test]
fn page_sizes_needed_per_version() {
    assert_eq!(page_sizes_needed(FormatVersion::V4, 9), None);
    assert_eq!(page_sizes_needed(FormatVersion::V3, 9), Some(9));
    assert_eq!(page_sizes_needed(FormatVersion::V2, 9), Some(0));
    assert_eq!(page_sizes_needed(FormatVersion::V1, 9), Some(0));
    assert_eq!(page_sizes_needed(FormatVersion::V0, 9), Some(0));
}
