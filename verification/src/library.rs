//! What the library remembers of how a song is viewed.
use vstd::prelude::*;
use crate::page_files::chars_of;

verus! {

/// How the viewer sizes a song: to fit a number of staves or of columns, or at a
/// zoom factor of its own (`Z`).
#[derive(Clone, Copy, Debug)]
pub enum ScaleMode<Z> {
    FitStaves(u32),
    FitPages(u32),
    Zoom(Z),
}

/// The name of the viewer's action that selects a kind of sizing.
pub open spec fn action_name<Z>(mode: ScaleMode<Z>) -> Seq<char> {
    match mode {
        ScaleMode::FitStaves(_) => "fit-staves"@,
        ScaleMode::FitPages(_) => "fit-columns"@,
        ScaleMode::Zoom(_) => "manual"@,
    }
}

/// The sizing that an action of the viewer selects: three staves, two columns, or the given
/// zoom for any other action.
pub open spec fn mode_for_action<Z>(action: Seq<char>, zoom: Z) -> ScaleMode<Z> {
    if action == "fit-staves"@ {
        ScaleMode::FitStaves(3)
    } else if action == "fit-columns"@ {
        ScaleMode::FitPages(2)
    } else {
        ScaleMode::Zoom(zoom)
    }
}

impl<Z> ScaleMode<Z> {
    /// The name of the viewer's action that selects this kind of sizing.
    pub fn action_string(&self) -> (r: &'static str)
        ensures
            r@ == action_name(*self),
    {
        match self {
            ScaleMode::FitStaves(_) => "fit-staves",
            ScaleMode::FitPages(_) => "fit-columns",
            ScaleMode::Zoom(_) => "manual",
        }
    }
}

/// The sizing that the viewer's sizing action stands for: three staves, two
/// columns, or the given zoom.
pub fn scale_mode_of_action<Z>(action: &str, zoom: Z) -> (r: ScaleMode<Z>)
    requires
        action@ == "fit-staves"@ || action@ == "fit-columns"@ || action@ == "manual"@,
    ensures
        r == mode_for_action(action@, zoom),
{
    proof {
        reveal_strlit("fit-staves");
        reveal_strlit("fit-columns");
        reveal_strlit("manual");
    }
    let a = chars_of(action);
    if a.len() == 10 && a[0] == 'f' && a[4] == 's' {
        ScaleMode::FitStaves(3)
    } else if a.len() == 11 {
        ScaleMode::FitPages(2)
    } else {
        ScaleMode::Zoom(zoom)
    }
}

/// Selecting a sizing by one of the viewer's actions and asking the sizing for its action gives
/// that action back; asking a sizing for its action and selecting by it gives the sizing back
/// where it is one that an action selects (three staves, two columns, or the zoom at hand).
pub proof fn lemma_action_round_trip<Z>(action: Seq<char>, mode: ScaleMode<Z>, zoom: Z)
    ensures
        (action == "fit-staves"@ || action == "fit-columns"@ || action == "manual"@) ==> action_name(
            mode_for_action(action, zoom),
        ) == action,
        (mode == ScaleMode::<Z>::FitStaves(3) || mode == ScaleMode::<Z>::FitPages(2) || mode
            == ScaleMode::<Z>::Zoom(zoom)) ==> mode_for_action(action_name(mode), zoom) == mode,
{
    reveal_strlit("fit-staves");
    reveal_strlit("fit-columns");
    reveal_strlit("manual");
    assert("fit-staves"@ != "fit-columns"@) by {
        assert("fit-staves"@.len() != "fit-columns"@.len());
    }
    assert("fit-staves"@ != "manual"@) by {
        assert("fit-staves"@.len() != "manual"@.len());
    }
    assert("fit-columns"@ != "manual"@) by {
        assert("fit-columns"@.len() != "manual"@.len());
    }
}

} // verus!
