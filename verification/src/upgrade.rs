//! Upgrading song metadata written by older versions of the format.
//!
//! Format 0 recorded per section only whether it repeats; format 1 gave each section its
//! metadata. Formats up to 2 allowed pieces without a name; format 3 names every piece (an empty
//! name where there was none). The staff coordinates changed too, from page-relative to pixels
//! to page-width-relative; those conversions are done on the coordinates themselves.
use vstd::prelude::*;
use std::collections::BTreeMap;
use crate::collection::SectionMeta;
use crate::keys::{increasing, sorted_keys};

verus! {

broadcast use vstd::std_specs::btree::group_btree_axioms;

/// The metadata that format 1 gives a section of format 0: its repetition flag, and no section
/// end.
pub open spec fn section_of_flag(is_repetition: bool) -> SectionMeta {
    SectionMeta { is_repetition, section_end: false }
}

/// Upgrades the sections of format 0 (a repetition flag per section start) to format 1.
pub fn sections_from_flags(flags: &BTreeMap<usize, bool>) -> (out: BTreeMap<usize, SectionMeta>)
    ensures
        out@ == flags@.map_values(|r: bool| section_of_flag(r)),
{
    let keys = sorted_keys(flags);
    let mut out: BTreeMap<usize, SectionMeta> = BTreeMap::new();
    let mut i: usize = 0;
    while i < keys.len()
        invariant
            i <= keys.len(),
            increasing(keys@),
            keys@.to_set() == flags@.dom(),
            out@.dom() == keys@.subrange(0, i as int).to_set(),
            forall|k: usize| #[trigger] out@.contains_key(k) ==> flags@.contains_key(k) && out@[k]
                == section_of_flag(flags@[k]),
        decreases keys.len() - i,
    {
        let k = keys[i];
        proof {
            assert(keys@.to_set().contains(k));
        }
        let flag = *flags.get(&k).unwrap();
        out.insert(k, SectionMeta { is_repetition: flag, section_end: false });
        proof {
            assert(keys@.subrange(0, i + 1).to_set() =~= keys@.subrange(0, i as int).to_set().insert(k)) by {
                assert(keys@.subrange(0, i + 1) =~= keys@.subrange(0, i as int).push(k));
                broadcast use vstd::seq_lib::group_seq_properties;
            }
        }
        i = i + 1;
    }
    proof {
        assert(keys@.subrange(0, keys.len() as int) =~= keys@);
        assert(out@ =~= flags@.map_values(|r: bool| section_of_flag(r)));
    }
    out
}

/// The name that format 3 gives a piece of format 2: its name, or the empty name.
pub open spec fn name_or_empty(name: Option<String>) -> Seq<char> {
    match name {
        Some(n) => n@,
        None => Seq::empty(),
    }
}

/// Upgrades the piece names of format 2 (a piece may lack a name) to format 3, where a missing
/// name becomes the empty name.
pub fn names_or_empty(names: &BTreeMap<usize, Option<String>>) -> (out: BTreeMap<usize, String>)
    ensures
        out@.dom() == names@.dom(),
        forall|k: usize| #[trigger] out@.contains_key(k) ==> out@[k]@ == name_or_empty(names@[k]),
{
    let keys = sorted_keys(names);
    let mut out: BTreeMap<usize, String> = BTreeMap::new();
    let mut i: usize = 0;
    while i < keys.len()
        invariant
            i <= keys.len(),
            increasing(keys@),
            keys@.to_set() == names@.dom(),
            out@.dom() == keys@.subrange(0, i as int).to_set(),
            forall|k: usize| #[trigger] out@.contains_key(k) ==> names@.contains_key(k) && out@[k]@
                == name_or_empty(names@[k]),
        decreases keys.len() - i,
    {
        let k = keys[i];
        proof {
            assert(keys@.to_set().contains(k));
        }
        let name = match names.get(&k).unwrap() {
            Some(n) => n.clone(),
            None => String::new(),
        };
        out.insert(k, name);
        proof {
            assert(keys@.subrange(0, i + 1).to_set() =~= keys@.subrange(0, i as int).to_set().insert(k)) by {
                assert(keys@.subrange(0, i + 1) =~= keys@.subrange(0, i as int).push(k));
                broadcast use vstd::seq_lib::group_seq_properties;
            }
        }
        i = i + 1;
    }
    proof {
        assert(keys@.subrange(0, keys.len() as int) =~= keys@);
    }
    out
}

/// The versions of the song metadata format, oldest first; `V4` is the current one.
#[derive(Clone, Copy, Debug, PartialEq, Eq, Structural)]
pub enum FormatVersion {
    V0,
    V1,
    V2,
    V3,
    V4,
}

/// How many page sizes the upgrade from `version` needs: none for the current format; for
/// format 3, which records the song's page count, that count; for older formats 0, that is all
/// pages the file holds.
pub open spec fn page_sizes_wanted(version: FormatVersion, n_pages: usize) -> Option<usize> {
    match version {
        FormatVersion::V4 => None,
        FormatVersion::V3 => Some(n_pages),
        _ => Some(0),
    }
}

/// How many page sizes the upgrade from `version` needs (see `page_sizes_wanted`); `n_pages` is
/// the page count that format 3 records.
pub fn page_sizes_needed(version: FormatVersion, n_pages: usize) -> (n: Option<usize>)
    ensures
        n == page_sizes_wanted(version, n_pages),
{
    match version {
        FormatVersion::V4 => None,
        FormatVersion::V3 => Some(n_pages),
        _ => Some(0),
    }
}

} // verus!
