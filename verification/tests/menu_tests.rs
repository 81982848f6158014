use raycaster_horror::difficulty::Difficulty;
use raycaster_horror::engine::minimap::{layout, CELL_PX, MARGIN};
use raycaster_horror::game::{FlowAction, FrameInput, Screen};
use raycaster_horror::screens::welcome::{is_confirm, Key, Stage, WelcomeState};

#[test]
fn difficulty_values() {
    assert_eq!(Difficulty::Easy.survival_seconds(), 90);
    assert_eq!(Difficulty::Medium.survival_seconds(), 150);
    assert_eq!(Difficulty::Hard.survival_seconds(), 210);
    assert_eq!(Difficulty::Easy.pathfind_recalc_frames(), 16);
    assert_eq!(Difficulty::Medium.pathfind_recalc_frames(), 12);
    assert_eq!(Difficulty::Hard.pathfind_recalc_frames(), 6);
    assert_eq!(Difficulty::Easy.label(), "EASY");
    assert_eq!(Difficulty::Medium.label(), "MEDIUM");
    assert_eq!(Difficulty::Hard.label(), "HARD");
}

#[test]
fn harder_is_longer_and_replans_faster() {
    let all = [Difficulty::Easy, Difficulty::Medium, Difficulty::Hard];
    for w in all.windows(2) {
        assert!(w[0].survival_seconds() < w[1].survival_seconds());
        assert!(w[0].pathfind_recalc_frames() > w[1].pathfind_recalc_frames());
    }
}

#[test]
fn minimap_in_top_right_corner() {
    let l = layout(960);
    assert_eq!(l.size_px, 84);
    assert_eq!(l.cell_px, CELL_PX);
    assert_eq!(l.origin_x, 864);
    assert_eq!(l.origin_y, MARGIN);
    assert_eq!(l.origin_x + l.size_px + MARGIN, 960);
}

#[test]
fn confirm_keys() {
    assert!(is_confirm(&Key::Return));
    assert!(is_confirm(&Key::Return2));
    assert!(is_confirm(&Key::KpEnter));
    assert!(!is_confirm(&Key::R));
    assert!(!is_confirm(&Key::Num1));
}

#[test]
fn title_enter_only_moves_to_selector() {
    let mut w = WelcomeState::new();
    assert_eq!(w.difficulty, Difficulty::Medium);
    assert_eq!(w.stage, Stage::Title);
    assert!(!w.handle_keydowns(&[Key::Num1]));
    assert_eq!(w.stage, Stage::Title);
    assert_eq!(w.difficulty, Difficulty::Medium);
    assert!(!w.handle_keydowns(&[Key::Num3, Key::Return]));
    assert_eq!(w.stage, Stage::Difficulty);
    assert_eq!(w.difficulty, Difficulty::Medium);
}

#[test]
fn selector_picks_last_number_before_confirm() {
    let mut w = WelcomeState::new();
    w.handle_keydowns(&[Key::KpEnter]);
    assert!(!w.handle_keydowns(&[Key::Num1]));
    assert_eq!(w.difficulty, Difficulty::Easy);
    assert!(!w.handle_keydowns(&[Key::Num3, Key::Other, Key::R]));
    assert_eq!(w.difficulty, Difficulty::Hard);
    assert!(w.handle_keydowns(&[Key::Num2, Key::Return2, Key::Num1]));
    assert_eq!(w.difficulty, Difficulty::Medium);
    assert_eq!(w.stage, Stage::Difficulty);
    assert!(!w.handle_keydowns(&[]));
}

fn input(menu_confirmed: bool, intro_finished: bool, retry: bool, ret: bool) -> FrameInput {
    FrameInput { menu_confirmed, intro_finished, retry_pressed: retry, return_pressed: ret }
}

#[test]
fn full_run_to_game_over_and_back() {
    let s = Screen::Welcome;
    assert_eq!(s.after_update(input(false, false, false, false)), (Screen::Welcome, FlowAction::Nothing));
    let (s, a) = s.after_update(input(true, false, false, false));
    assert_eq!((s, a), (Screen::Intro, FlowAction::BeginRun));
    let (s, a) = s.after_update(input(false, true, false, false));
    assert_eq!((s, a), (Screen::Playing, FlowAction::Nothing));
    assert_eq!(s.after_update(input(true, true, true, true)), (Screen::Playing, FlowAction::Nothing));
    assert_eq!(s.after_draw(false, false), (Screen::Playing, FlowAction::Nothing));
    let (s, a) = s.after_draw(true, true);
    assert_eq!((s, a), (Screen::GameOver, FlowAction::EndRun));
    assert_eq!(s.after_update(input(false, false, false, true)), (Screen::GameOver, FlowAction::Nothing));
    assert_eq!(s.after_update(input(false, false, true, false)), (Screen::Welcome, FlowAction::BackToMenu));
}

#[test]
fn surviving_leads_to_success() {
    let (s, a) = Screen::Playing.after_draw(false, true);
    assert_eq!((s, a), (Screen::Success, FlowAction::EndRun));
    assert_eq!(s.after_update(input(false, false, false, true)), (Screen::Welcome, FlowAction::BackToMenu));
    assert_eq!(s.after_update(input(false, false, true, false)), (Screen::Welcome, FlowAction::BackToMenu));
    assert_eq!(s.after_update(input(true, true, false, false)), (Screen::Success, FlowAction::Nothing));
    assert_eq!(Screen::Welcome.after_draw(true, true), (Screen::Welcome, FlowAction::Nothing));
}
