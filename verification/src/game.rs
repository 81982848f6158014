//! The game's screen flow: Welcome -> Intro -> Playing -> GameOver | Success
//! -> Welcome. Each frame first updates the current screen (menus, the intro,
//! the end screens react to their inputs), then, after the playing frame is
//! drawn, checks whether the run ended.
use vstd::prelude::*;

verus! {

/// The screen being shown.
#[derive(Clone, Copy, Debug, PartialEq, Eq, Structural)]
pub enum Screen {
    Welcome,
    Intro,
    Playing,
    GameOver,
    Success,
}

/// What the caller has to do on a screen change.
#[derive(Clone, Copy, Debug, PartialEq, Eq, Structural)]
pub enum FlowAction {
    /// Nothing for the caller to do: no screen change, or Intro -> Playing,
    /// where the run set up by `BeginRun` simply goes on.
    Nothing,
    /// Welcome -> Intro: start a fresh run with the chosen difficulty,
    /// restart the intro and start the run's music, which plays from the
    /// intro on.
    BeginRun,
    /// Playing -> GameOver or Success: stop the run's audio and reset the
    /// end screen.
    EndRun,
    /// GameOver or Success -> Welcome.
    BackToMenu,
}

/// What happened during the update of the current screen this frame.
#[derive(Clone, Copy, Debug, PartialEq, Eq, Structural)]
pub struct FrameInput {
    /// The welcome screen's difficulty selector was confirmed.
    pub menu_confirmed: bool,
    /// The intro has run its full length.
    pub intro_finished: bool,
    /// R was pressed this frame.
    pub retry_pressed: bool,
    /// Return was pressed this frame.
    pub return_pressed: bool,
}

/// Screen after the update step of a frame.
pub open spec fn spec_after_update(screen: Screen, input: FrameInput) -> Screen {
    match screen {
        Screen::Welcome => if input.menu_confirmed { Screen::Intro } else { Screen::Welcome },
        Screen::Intro => if input.intro_finished { Screen::Playing } else { Screen::Intro },
        Screen::Playing => Screen::Playing,
        Screen::GameOver => if input.retry_pressed { Screen::Welcome } else { Screen::GameOver },
        Screen::Success => if input.return_pressed || input.retry_pressed {
            Screen::Welcome
        } else {
            Screen::Success
        },
    }
}

/// Screen after the playing frame was drawn: a dead player loses (even if the
/// time ran out on the same frame), a player who survived long enough wins.
pub open spec fn spec_after_draw(screen: Screen, player_dead: bool, survived: bool) -> Screen {
    match screen {
        Screen::Playing => if player_dead {
            Screen::GameOver
        } else if survived {
            Screen::Success
        } else {
            Screen::Playing
        },
        _ => screen,
    }
}

/// The action that goes with a change from `from` to `to`.
pub open spec fn spec_action(from: Screen, to: Screen) -> FlowAction {
    if from == to {
        FlowAction::Nothing
    } else {
        match to {
            Screen::Intro => FlowAction::BeginRun,
            Screen::Playing => FlowAction::Nothing,
            Screen::GameOver | Screen::Success => FlowAction::EndRun,
            Screen::Welcome => FlowAction::BackToMenu,
        }
    }
}

fn action(from: Screen, to: Screen) -> (a: FlowAction)
    ensures
        a == spec_action(from, to),
{
    if from == to {
        FlowAction::Nothing
    } else {
        match to {
            Screen::Intro => FlowAction::BeginRun,
            Screen::Playing => FlowAction::Nothing,
            Screen::GameOver | Screen::Success => FlowAction::EndRun,
            Screen::Welcome => FlowAction::BackToMenu,
        }
    }
}

impl Screen {
    /// The update step of a frame: the welcome screen moves to the intro once
    /// the menu is confirmed, the intro to the game once it finished, game
    /// over back to the welcome screen on R, success on Return or R. The
    /// playing screen is left only by `after_draw`.
    pub fn after_update(self, input: FrameInput) -> (r: (Screen, FlowAction))
        ensures
            r.0 == spec_after_update(self, input),
            r.1 == spec_action(self, r.0),
            self == Screen::Welcome ==> r == (if input.menu_confirmed {
                (Screen::Intro, FlowAction::BeginRun)
            } else {
                (Screen::Welcome, FlowAction::Nothing)
            }),
            self == Screen::Intro ==> r.1 == FlowAction::Nothing,
            self == Screen::Playing ==> r == (Screen::Playing, FlowAction::Nothing),
            r.0 == self ==> r.1 == FlowAction::Nothing,
    {
        let next = match self {
            Screen::Welcome => if input.menu_confirmed { Screen::Intro } else { Screen::Welcome },
            Screen::Intro => if input.intro_finished { Screen::Playing } else { Screen::Intro },
            Screen::Playing => Screen::Playing,
            Screen::GameOver => if input.retry_pressed { Screen::Welcome } else { Screen::GameOver },
            Screen::Success => if input.return_pressed || input.retry_pressed {
                Screen::Welcome
            } else {
                Screen::Success
            },
        };
        (next, action(self, next))
    }

    /// The end-of-run check after a playing frame was drawn.
    pub fn after_draw(self, player_dead: bool, survived: bool) -> (r: (Screen, FlowAction))
        ensures
            r.0 == spec_after_draw(self, player_dead, survived),
            r.1 == spec_action(self, r.0),
            self == Screen::Playing && player_dead ==> r == (Screen::GameOver, FlowAction::EndRun),
            self == Screen::Playing && !player_dead && survived ==> r == (Screen::Success, FlowAction::EndRun),
            self == Screen::Playing && !player_dead && !survived ==> r == (Screen::Playing, FlowAction::Nothing),
            self != Screen::Playing ==> r == (self, FlowAction::Nothing),
    {
        let next = match self {
            Screen::Playing => if player_dead {
                Screen::GameOver
            } else if survived {
                Screen::Success
            } else {
                Screen::Playing
            },
            other => other,
        };
        (next, action(self, next))
    }
}

/// The flow only moves forward through a run: a run always starts from the
/// welcome screen through the intro, ends only from the playing screen, and
/// the end screens only lead back to the welcome screen.
pub proof fn lemma_flow_order(s: Screen, input: FrameInput, dead: bool, survived: bool)
    ensures
        spec_after_update(s, input) == Screen::Intro ==> s == Screen::Welcome || s == Screen::Intro,
        spec_after_update(s, input) == Screen::Playing ==> s == Screen::Intro || s == Screen::Playing,
        spec_after_draw(s, dead, survived) == Screen::GameOver ==> s == Screen::GameOver || (s
            == Screen::Playing && dead),
        spec_after_draw(s, dead, survived) == Screen::Success ==> s == Screen::Success || (s
            == Screen::Playing && !dead && survived),
        s == Screen::GameOver || s == Screen::Success ==> spec_after_update(s, input) == s
            || spec_after_update(s, input) == Screen::Welcome,
        s == Screen::GameOver || s == Screen::Success ==> (input.retry_pressed ==> spec_after_update(
            s,
            input,
        ) == Screen::Welcome),
{
}

/// A dead player always loses: after a playing frame in which the player
/// died, the run ends on the game over screen, whether or not the survival
/// time was reached on the same frame. A living player wins exactly when the
/// survival time was reached, and otherwise keeps playing.
pub proof fn lemma_death_always_loses(survived: bool)
    ensures
        spec_after_draw(Screen::Playing, true, survived) == Screen::GameOver,
        spec_action(Screen::Playing, spec_after_draw(Screen::Playing, true, survived)) == FlowAction::EndRun,
        (spec_after_draw(Screen::Playing, false, survived) == Screen::Success) == survived,
        !survived ==> spec_after_draw(Screen::Playing, false, survived) == Screen::Playing,
        survived ==> spec_action(Screen::Playing, spec_after_draw(Screen::Playing, false, survived))
            == FlowAction::EndRun,
{
}

/// Only a confirmed menu leaves the welcome screen, and then for the intro:
/// the other inputs of the frame (Return or R pressed outside the menu, an
/// intro flag) change nothing there, so two frames that agree on the menu
/// confirmation give the same screen and action.
pub proof fn lemma_welcome_waits_for_menu(a: FrameInput, b: FrameInput)
    ensures
        (spec_after_update(Screen::Welcome, a) == Screen::Intro) == a.menu_confirmed,
        !a.menu_confirmed ==> spec_after_update(Screen::Welcome, a) == Screen::Welcome,
        a.menu_confirmed == b.menu_confirmed ==> spec_after_update(Screen::Welcome, a)
            == spec_after_update(Screen::Welcome, b),
        a.menu_confirmed ==> spec_action(Screen::Welcome, spec_after_update(Screen::Welcome, a))
            == FlowAction::BeginRun,
{
}

/// A frame that stays on its screen asks the caller for nothing, and a
/// fresh run (`BeginRun`) is asked for exactly on the move from the welcome
/// screen to the intro: never while the intro plays, nor on any other move.
pub proof fn lemma_actions_only_on_change(s: Screen, input: FrameInput, dead: bool, survived: bool)
    ensures
        spec_after_update(s, input) == s ==> spec_action(s, spec_after_update(s, input))
            == FlowAction::Nothing,
        spec_after_draw(s, dead, survived) == s ==> spec_action(s, spec_after_draw(s, dead, survived))
            == FlowAction::Nothing,
        (spec_action(s, spec_after_update(s, input)) == FlowAction::BeginRun) == (s == Screen::Welcome
            && spec_after_update(s, input) == Screen::Intro),
        spec_action(s, spec_after_draw(s, dead, survived)) != FlowAction::BeginRun,
        s == Screen::Intro ==> spec_action(s, spec_after_update(s, input)) == FlowAction::Nothing,
{
}

} // verus!
