use rust_writer::shortcuts::{shortcut_actions, KeyInput, ShortcutAction, ShortcutState};

fn none() -> KeyInput {
    KeyInput {
        n: false,
        o: false,
        s: false,
        f: false,
        h: false,
        f3: false,
        f5: false,
        f11: false,
        escape: false,
        comma: false,
        tab: false,
        home: false,
        end: false,
        ctrl: false,
        shift: false,
    }
}

fn idle() -> ShortcutState {
    ShortcutState { search_open: false, query_empty: true, fullscreen: false }
}

#[test]
fn ctrl_s_saves_and_ctrl_shift_s_saves_as() {
    let k = KeyInput { s: true, ctrl: true, ..none() };
    assert_eq!(shortcut_actions(&k, &idle()), vec![ShortcutAction::Save]);
    let k = KeyInput { s: true, ctrl: true, shift: true, ..none() };
    assert_eq!(shortcut_actions(&k, &idle()), vec![ShortcutAction::SaveAs]);
    let k = KeyInput { s: true, ..none() };
    assert!(shortcut_actions(&k, &idle()).is_empty());
}

#[test]
fn escape_closes_search_before_leaving_fullscreen() {
    let k = KeyInput { escape: true, ..none() };
    let st = ShortcutState { search_open: true, query_empty: true, fullscreen: true };
    assert_eq!(shortcut_actions(&k, &st), vec![ShortcutAction::CloseSearch]);
    let st = ShortcutState { search_open: false, query_empty: true, fullscreen: true };
    assert_eq!(shortcut_actions(&k, &st), vec![ShortcutAction::ToggleFullscreen]);
    assert!(shortcut_actions(&k, &idle()).is_empty());
}

#[test]
fn escape_sees_a_search_bar_opened_in_the_same_frame() {
    let k = KeyInput { f: true, ctrl: true, escape: true, ..none() };
    assert_eq!(shortcut_actions(&k, &idle()), vec![ShortcutAction::OpenFind, ShortcutAction::CloseSearch]);
}

#[test]
fn f3_needs_a_query() {
    let k = KeyInput { f3: true, ..none() };
    assert!(shortcut_actions(&k, &idle()).is_empty());
    let st = ShortcutState { query_empty: false, ..idle() };
    assert_eq!(shortcut_actions(&k, &st), vec![ShortcutAction::FindNext]);
    let k = KeyInput { f3: true, shift: true, ..none() };
    assert_eq!(shortcut_actions(&k, &st), vec![ShortcutAction::FindPrev]);
}

#[test]
fn ctrl_shift_tab_moves_back() {
    let k = KeyInput { tab: true, ctrl: true, shift: true, ..none() };
    assert_eq!(shortcut_actions(&k, &idle()), vec![ShortcutAction::PrevDocument]);
}

#[test]
fn ctrl_tab_moves_forward() {
    let k = KeyInput { tab: true, ctrl: true, ..none() };
    assert_eq!(shortcut_actions(&k, &idle()), vec![ShortcutAction::NextDocument]);
}

#[test]
fn several_shortcuts_in_one_frame_keep_their_order() {
    let k = KeyInput { n: true, f5: true, home: true, end: true, comma: true, ctrl: true, ..none() };
    assert_eq!(
        shortcut_actions(&k, &idle()),
        vec![
            ShortcutAction::NewDocument,
            ShortcutAction::ToggleTypewriter,
            ShortcutAction::ShowSettings,
            ShortcutAction::ScrollToTop,
            ShortcutAction::ScrollToBottom
        ]
    );
    let k = KeyInput { f11: true, o: true, h: true, ctrl: true, ..none() };
    assert_eq!(
        shortcut_actions(&k, &idle()),
        vec![ShortcutAction::OpenDocument, ShortcutAction::ToggleFullscreen, ShortcutAction::OpenReplace]
    );
}

use rust_writer::ime::{frame_has_preedit, ImeSignal, ImeState};

#[test]
fn composition_locks_the_anchor_until_the_cooldown_runs_out() {
    let mut st = ImeState::new();
    assert!(!st.position_locked());
    st.on_frame(&vec![ImeSignal::Preedit { empty: false }]);
    assert!(st.composing && st.position_locked());
    st.on_frame(&vec![ImeSignal::Other, ImeSignal::Commit]);
    assert_eq!(st, ImeState { composing: false, cooldown: 3 });
    st.on_frame(&vec![]);
    st.on_frame(&vec![]);
    assert!(st.position_locked());
    st.on_frame(&vec![]);
    assert!(!st.position_locked());
}

#[test]
fn cancelled_composition_also_cools_down() {
    let mut st = ImeState::new();
    st.on_frame(&vec![ImeSignal::Preedit { empty: false }, ImeSignal::Preedit { empty: true }]);
    assert_eq!(st, ImeState { composing: false, cooldown: 3 });
    st.on_frame(&vec![ImeSignal::Commit, ImeSignal::Preedit { empty: false }]);
    assert_eq!(st, ImeState { composing: true, cooldown: 0 });
}

#[test]
fn preedit_frames_are_detected() {
    assert!(frame_has_preedit(&vec![ImeSignal::Other, ImeSignal::Preedit { empty: true }]));
    assert!(!frame_has_preedit(&vec![ImeSignal::Commit, ImeSignal::Other]));
    assert!(!frame_has_preedit(&vec![]));
}
