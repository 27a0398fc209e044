//! The screens of the launcher.

use crate::double::{
    bits_order_numbers, exponents_double, one, one_is_one, zero_is_nothing, Double,
};
use vstd::prelude::*;

verus! {

/// What the launcher shows.
#[derive(Clone, Copy, Debug, PartialEq, Eq, Structural)]
pub enum LauncherScreen {
    Home,
    Worlds,
    CreateWorld,
    CreatingWorld,
    InWorld,
}

/// What happens in the launcher.
#[derive(Clone, Copy, Debug, PartialEq, Eq, Structural)]
pub enum LauncherEvent {
    /// The list of worlds is opened.
    OpenWorlds,
    /// The form for a new world is opened.
    OpenForm,
    /// The button that leads back is pressed.
    Back,
    /// A new world is being made.
    CreationStarted,
    /// A world has been made or chosen.
    EnterWorld,
    /// The player leaves the world.
    LeaveWorld,
}

/// The screen after an event.
pub open spec fn spec_next(screen: LauncherScreen, event: LauncherEvent) -> LauncherScreen {
    match (screen, event) {
        (LauncherScreen::Home, LauncherEvent::OpenWorlds) => LauncherScreen::Worlds,
        (LauncherScreen::Worlds, LauncherEvent::OpenForm) => LauncherScreen::CreateWorld,
        (LauncherScreen::Worlds, LauncherEvent::Back) => LauncherScreen::Home,
        (LauncherScreen::CreateWorld, LauncherEvent::Back) => LauncherScreen::Worlds,
        (LauncherScreen::CreateWorld, LauncherEvent::CreationStarted) =>
            LauncherScreen::CreatingWorld,
        (LauncherScreen::Worlds, LauncherEvent::EnterWorld) => LauncherScreen::InWorld,
        (LauncherScreen::CreatingWorld, LauncherEvent::EnterWorld) => LauncherScreen::InWorld,
        (LauncherScreen::InWorld, LauncherEvent::LeaveWorld) => LauncherScreen::Worlds,
        _ => screen,
    }
}

/// The screen after an event. Events that a screen does not know change nothing.
pub fn next_screen(screen: LauncherScreen, event: LauncherEvent) -> (r: LauncherScreen)
    ensures
        r == spec_next(screen, event),
{
    match (screen, event) {
        (LauncherScreen::Home, LauncherEvent::OpenWorlds) => LauncherScreen::Worlds,
        (LauncherScreen::Worlds, LauncherEvent::OpenForm) => LauncherScreen::CreateWorld,
        (LauncherScreen::Worlds, LauncherEvent::Back) => LauncherScreen::Home,
        (LauncherScreen::CreateWorld, LauncherEvent::Back) => LauncherScreen::Worlds,
        (LauncherScreen::CreateWorld, LauncherEvent::CreationStarted) =>
            LauncherScreen::CreatingWorld,
        (LauncherScreen::Worlds, LauncherEvent::EnterWorld) => LauncherScreen::InWorld,
        (LauncherScreen::CreatingWorld, LauncherEvent::EnterWorld) => LauncherScreen::InWorld,
        (LauncherScreen::InWorld, LauncherEvent::LeaveWorld) => LauncherScreen::Worlds,
        _ => screen,
    }
}

/// The bits of the numbers at which the stages of making a world end.
pub const SEARCH_FROM_BITS: u64 = 0x3fc4_7ae1_4000_0000;

/// See [`SEARCH_FROM_BITS`].
pub const TERRAIN_FROM_BITS: u64 = 0x3fe0_0000_0000_0000;

/// See [`SEARCH_FROM_BITS`].
pub const TIDYING_FROM_BITS: u64 = 0x3fed_70a3_e000_0000;

/// A stage of making a world.
#[derive(Clone, Copy, Debug, PartialEq, Eq, Structural)]
pub enum CreationStage {
    Preparing,
    Searching,
    Terrain,
    Tidying,
}

impl CreationStage {
    /// The stage that a progress belongs to.
    pub open spec fn spec_at(amount: Double) -> CreationStage {
        if amount.spec_less(Double { bits: SEARCH_FROM_BITS }) {
            CreationStage::Preparing
        } else if amount.spec_less(Double { bits: TERRAIN_FROM_BITS }) {
            CreationStage::Searching
        } else if amount.spec_less(Double { bits: TIDYING_FROM_BITS }) {
            CreationStage::Terrain
        } else {
            CreationStage::Tidying
        }
    }

    /// The stage that a progress belongs to.
    pub fn at(amount: Double) -> (r: CreationStage)
        ensures
            r == CreationStage::spec_at(amount),
    {
        if amount.less(Double { bits: SEARCH_FROM_BITS }) {
            CreationStage::Preparing
        } else if amount.less(Double { bits: TERRAIN_FROM_BITS }) {
            CreationStage::Searching
        } else if amount.less(Double { bits: TIDYING_FROM_BITS }) {
            CreationStage::Terrain
        } else {
            CreationStage::Tidying
        }
    }

    /// What is shown for the stage.
    pub open spec fn spec_label(self) -> &'static str {
        match self {
            CreationStage::Preparing => "初始化世界",
            CreationStage::Searching => "寻找安全出生点",
            CreationStage::Terrain => "生成地形",
            CreationStage::Tidying => "整理出生区域",
        }
    }

    /// What is shown for the stage.
    pub fn label(self) -> (r: &'static str)
        ensures
            r == self.spec_label(),
    {
        match self {
            CreationStage::Preparing => "初始化世界",
            CreationStage::Searching => "寻找安全出生点",
            CreationStage::Terrain => "生成地形",
            CreationStage::Tidying => "整理出生区域",
        }
    }
}

/// The worlds of a list that has room for some rows, and how many have none.
pub fn listed_worlds(worlds: usize, rows: usize) -> (r: (usize, usize))
    ensures
        r.0 + r.1 == worlds,
        r.0 == if worlds <= rows {
            worlds
        } else {
            rows
        },
{
    if worlds <= rows {
        (worlds, 0)
    } else {
        (rows, worlds - rows)
    }
}

/// A world is left for the list of worlds, and only a world that was made or chosen
/// is entered.
pub proof fn worlds_are_entered_and_left(screen: LauncherScreen, event: LauncherEvent)
    ensures
        spec_next(LauncherScreen::InWorld, LauncherEvent::LeaveWorld) == LauncherScreen::Worlds,
        spec_next(screen, event) == LauncherScreen::InWorld && screen != LauncherScreen::InWorld
            ==> event == LauncherEvent::EnterWorld && (screen == LauncherScreen::Worlds || screen
            == LauncherScreen::CreatingWorld),
        screen == LauncherScreen::InWorld && spec_next(screen, event) != screen ==> event
            == LauncherEvent::LeaveWorld,
{
}

/// From home the way to a new world leads over the list of worlds and the form, and back
/// leads the same way; what a screen does not know changes nothing.
pub proof fn screens_follow_one_way(screen: LauncherScreen, event: LauncherEvent)
    ensures
        ({
            let worlds = spec_next(LauncherScreen::Home, LauncherEvent::OpenWorlds);
            let form = spec_next(worlds, LauncherEvent::OpenForm);
            let making = spec_next(form, LauncherEvent::CreationStarted);
            &&& worlds == LauncherScreen::Worlds
            &&& form == LauncherScreen::CreateWorld
            &&& making == LauncherScreen::CreatingWorld
            &&& spec_next(making, LauncherEvent::EnterWorld) == LauncherScreen::InWorld
            &&& spec_next(worlds, LauncherEvent::EnterWorld) == LauncherScreen::InWorld
            &&& spec_next(form, LauncherEvent::Back) == worlds
            &&& spec_next(worlds, LauncherEvent::Back) == LauncherScreen::Home
        }),
        spec_next(screen, event) == LauncherScreen::Home ==> screen == LauncherScreen::Home
            || event == LauncherEvent::Back && screen == LauncherScreen::Worlds,
        spec_next(screen, event) == LauncherScreen::CreateWorld ==> screen
            == LauncherScreen::CreateWorld || event == LauncherEvent::OpenForm && screen
            == LauncherScreen::Worlds,
        spec_next(screen, event) == LauncherScreen::CreatingWorld ==> screen
            == LauncherScreen::CreatingWorld || event == LauncherEvent::CreationStarted && screen
            == LauncherScreen::CreateWorld,
        spec_next(screen, event) == LauncherScreen::Worlds && screen != LauncherScreen::Worlds
            ==> event == LauncherEvent::OpenWorlds && screen == LauncherScreen::Home || event
            == LauncherEvent::Back && screen == LauncherScreen::CreateWorld || event
            == LauncherEvent::LeaveWorld && screen == LauncherScreen::InWorld,
{
}

/// The place of a stage among the stages.
pub open spec fn stage_place(stage: CreationStage) -> int {
    match stage {
        CreationStage::Preparing => 0,
        CreationStage::Searching => 1,
        CreationStage::Terrain => 2,
        CreationStage::Tidying => 3,
    }
}

/// Progress leads through the stages in their order: more of it never leads back, it begins
/// with the first and ends with the last, and terrain is made from the half on.
pub proof fn stages_come_in_order(less: Double, more: Double)
    requires
        !less.spec_nan(),
        !more.spec_nan(),
        less.units() <= more.units(),
    ensures
        stage_place(CreationStage::spec_at(less)) <= stage_place(CreationStage::spec_at(more)),
        less.units() <= 0 ==> CreationStage::spec_at(less) == CreationStage::Preparing,
        more.units() >= one() ==> CreationStage::spec_at(more) == CreationStage::Tidying,
        stage_place(CreationStage::spec_at(more)) >= 2 <==> 2 * more.units() >= one(),
{
    let a = Double { bits: SEARCH_FROM_BITS };
    let b = Double { bits: TERRAIN_FROM_BITS };
    let c = Double { bits: TIDYING_FROM_BITS };
    let whole = Double { bits: 0x3ff0_0000_0000_0000 };
    bits_order_numbers(a, b);
    bits_order_numbers(b, c);
    bits_order_numbers(c, whole);
    bits_order_numbers(Double { bits: 0 }, a);
    zero_is_nothing(Double { bits: 0 });
    exponents_double(b, whole);
    one_is_one(whole);
}

} // verus!
