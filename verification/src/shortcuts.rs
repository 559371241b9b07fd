//! Keyboard shortcuts: from the keys pressed in a frame and the state of
//! the window, the actions to perform, in the order they are performed.

use vstd::prelude::*;

verus! {

/// The keys pressed in one frame, among those that shortcuts use, and the
/// modifiers held.
#[derive(Clone, Copy, Debug, PartialEq, Eq, Structural)]
pub struct KeyInput {
    pub n: bool,
    pub o: bool,
    pub s: bool,
    pub f: bool,
    pub h: bool,
    pub f3: bool,
    pub f5: bool,
    pub f11: bool,
    pub escape: bool,
    pub comma: bool,
    pub tab: bool,
    pub home: bool,
    pub end: bool,
    pub ctrl: bool,
    pub shift: bool,
}

/// What the shortcuts look at besides the keys.
#[derive(Clone, Copy, Debug, PartialEq, Eq, Structural)]
pub struct ShortcutState {
    /// The search bar is open.
    pub search_open: bool,
    /// The search query is empty.
    pub query_empty: bool,
    /// The window is fullscreen.
    pub fullscreen: bool,
}

/// An action that a shortcut asks for.
#[derive(Clone, Copy, Debug, PartialEq, Eq, Structural)]
pub enum ShortcutAction {
    NewDocument,
    OpenDocument,
    Save,
    SaveAs,
    ToggleFullscreen,
    ToggleTypewriter,
    OpenFind,
    OpenReplace,
    FindNext,
    FindPrev,
    CloseSearch,
    ShowSettings,
    NextDocument,
    PrevDocument,
    ScrollToTop,
    ScrollToBottom,
}

/// `a` when `cond` holds, else nothing.
pub open spec fn when(cond: bool, a: ShortcutAction) -> Seq<ShortcutAction> {
    if cond {
        seq![a]
    } else {
        seq![]
    }
}

/// The actions for `k` pressed in state `st`, in order. Shortcuts are
/// checked one after the other, and Escape sees what the earlier ones did:
/// it closes a search bar that Ctrl+F or Ctrl+H just opened, and leaves
/// fullscreen as F11 just set it. Ctrl+Tab moves to the next document and
/// Ctrl+Shift+Tab to the previous one.
pub open spec fn shortcut_actions_spec(k: KeyInput, st: ShortcutState) -> Seq<ShortcutAction> {
    let search_open = st.search_open || (k.f && k.ctrl) || (k.h && k.ctrl);
    let fullscreen = if k.f11 {
        !st.fullscreen
    } else {
        st.fullscreen
    };
    when(k.n && k.ctrl, ShortcutAction::NewDocument) + when(k.o && k.ctrl, ShortcutAction::OpenDocument)
        + when(k.s && k.ctrl && !k.shift, ShortcutAction::Save) + when(
        k.s && k.ctrl && k.shift,
        ShortcutAction::SaveAs,
    ) + when(k.f11, ShortcutAction::ToggleFullscreen) + when(k.f5, ShortcutAction::ToggleTypewriter)
        + when(k.f && k.ctrl, ShortcutAction::OpenFind) + when(k.h && k.ctrl, ShortcutAction::OpenReplace)
        + when(k.f3 && !st.query_empty && k.shift, ShortcutAction::FindPrev) + when(
        k.f3 && !st.query_empty && !k.shift,
        ShortcutAction::FindNext,
    ) + when(k.escape && search_open, ShortcutAction::CloseSearch) + when(
        k.escape && !search_open && fullscreen,
        ShortcutAction::ToggleFullscreen,
    ) + when(k.comma && k.ctrl, ShortcutAction::ShowSettings) + when(
        k.tab && k.ctrl && !k.shift,
        ShortcutAction::NextDocument,
    ) + when(k.tab && k.ctrl && k.shift, ShortcutAction::PrevDocument) + when(
        k.home && k.ctrl,
        ShortcutAction::ScrollToTop,
    ) + when(k.end && k.ctrl, ShortcutAction::ScrollToBottom)
}

/// The keys of a frame in which only F11 is pressed, with no modifier.
pub open spec fn f11_alone() -> KeyInput {
    KeyInput {
        n: false,
        o: false,
        s: false,
        f: false,
        h: false,
        f3: false,
        f5: false,
        f11: true,
        escape: false,
        comma: false,
        tab: false,
        home: false,
        end: false,
        ctrl: false,
        shift: false,
    }
}

proof fn lemma_contains_in_sum(a: Seq<ShortcutAction>, b: Seq<ShortcutAction>, x: ShortcutAction)
    requires
        a.contains(x) || b.contains(x),
    ensures
        (a + b).contains(x),
{
    if a.contains(x) {
        let i = choose|i: int| 0 <= i < a.len() && a[i] == x;
        assert((a + b)[i] == x);
    } else {
        let i = choose|i: int| 0 <= i < b.len() && b[i] == x;
        assert((a + b)[a.len() + i] == x);
    }
}

/// F11 toggles fullscreen whatever else is held or pressed: the actions of
/// a frame in which F11 is pressed include `ToggleFullscreen`.
#[verifier::rlimit(30)]
pub proof fn lemma_f11_toggles_fullscreen(k: KeyInput, st: ShortcutState)
    requires
        k.f11,
    ensures
        shortcut_actions_spec(k, st).contains(ShortcutAction::ToggleFullscreen),
{
    let x = ShortcutAction::ToggleFullscreen;
    let search_open = st.search_open || (k.f && k.ctrl) || (k.h && k.ctrl);
    let fullscreen = !st.fullscreen;
    let w1 = when(k.n && k.ctrl, ShortcutAction::NewDocument) + when(k.o && k.ctrl, ShortcutAction::OpenDocument)
        + when(k.s && k.ctrl && !k.shift, ShortcutAction::Save) + when(
        k.s && k.ctrl && k.shift,
        ShortcutAction::SaveAs,
    );
    let w2 = w1 + when(k.f11, x);
    assert(when(k.f11, x)[0] == x);
    lemma_contains_in_sum(w1, when(k.f11, x), x);
    let w3 = w2 + when(k.f5, ShortcutAction::ToggleTypewriter);
    lemma_contains_in_sum(w2, when(k.f5, ShortcutAction::ToggleTypewriter), x);
    let w4 = w3 + when(k.f && k.ctrl, ShortcutAction::OpenFind);
    lemma_contains_in_sum(w3, when(k.f && k.ctrl, ShortcutAction::OpenFind), x);
    let w5 = w4 + when(k.h && k.ctrl, ShortcutAction::OpenReplace);
    lemma_contains_in_sum(w4, when(k.h && k.ctrl, ShortcutAction::OpenReplace), x);
    let w6 = w5 + when(k.f3 && !st.query_empty && k.shift, ShortcutAction::FindPrev);
    lemma_contains_in_sum(w5, when(k.f3 && !st.query_empty && k.shift, ShortcutAction::FindPrev), x);
    let w7 = w6 + when(k.f3 && !st.query_empty && !k.shift, ShortcutAction::FindNext);
    lemma_contains_in_sum(w6, when(k.f3 && !st.query_empty && !k.shift, ShortcutAction::FindNext), x);
    let w8 = w7 + when(k.escape && search_open, ShortcutAction::CloseSearch);
    lemma_contains_in_sum(w7, when(k.escape && search_open, ShortcutAction::CloseSearch), x);
    let w9 = w8 + when(k.escape && !search_open && fullscreen, x);
    lemma_contains_in_sum(w8, when(k.escape && !search_open && fullscreen, x), x);
    let w10 = w9 + when(k.comma && k.ctrl, ShortcutAction::ShowSettings);
    lemma_contains_in_sum(w9, when(k.comma && k.ctrl, ShortcutAction::ShowSettings), x);
    let w11 = w10 + when(k.tab && k.ctrl && !k.shift, ShortcutAction::NextDocument);
    lemma_contains_in_sum(w10, when(k.tab && k.ctrl && !k.shift, ShortcutAction::NextDocument), x);
    let w12 = w11 + when(k.tab && k.ctrl && k.shift, ShortcutAction::PrevDocument);
    lemma_contains_in_sum(w11, when(k.tab && k.ctrl && k.shift, ShortcutAction::PrevDocument), x);
    let w13 = w12 + when(k.home && k.ctrl, ShortcutAction::ScrollToTop);
    lemma_contains_in_sum(w12, when(k.home && k.ctrl, ShortcutAction::ScrollToTop), x);
    let w14 = w13 + when(k.end && k.ctrl, ShortcutAction::ScrollToBottom);
    lemma_contains_in_sum(w13, when(k.end && k.ctrl, ShortcutAction::ScrollToBottom), x);
    assert(w14 == shortcut_actions_spec(k, st));
}

/// F11 pressed alone asks for fullscreen to be toggled and for nothing
/// else, in any state.
pub proof fn lemma_f11_alone_only_toggles_fullscreen(st: ShortcutState)
    ensures
        shortcut_actions_spec(f11_alone(), st) == seq![ShortcutAction::ToggleFullscreen],
{
    assert(shortcut_actions_spec(f11_alone(), st) =~= seq![ShortcutAction::ToggleFullscreen]);
}

fn push_when(out: &mut Vec<ShortcutAction>, cond: bool, a: ShortcutAction)
    ensures
        final(out)@ == old(out)@ + when(cond, a),
{
    if cond {
        out.push(a);
    } else {
        assert(old(out)@ + when(cond, a) =~= old(out)@);
    }
}

/// The actions that the keys `k` ask for in state `st`, in the order in
/// which they are to be performed.
pub fn shortcut_actions(k: &KeyInput, st: &ShortcutState) -> (r: Vec<ShortcutAction>)
    ensures
        r@ == shortcut_actions_spec(*k, *st),
{
    let mut out: Vec<ShortcutAction> = Vec::new();
    let mut search_open = st.search_open;
    let mut fullscreen = st.fullscreen;
    push_when(&mut out, k.n && k.ctrl, ShortcutAction::NewDocument);
    push_when(&mut out, k.o && k.ctrl, ShortcutAction::OpenDocument);
    push_when(&mut out, k.s && k.ctrl && !k.shift, ShortcutAction::Save);
    push_when(&mut out, k.s && k.ctrl && k.shift, ShortcutAction::SaveAs);
    if k.f11 {
        fullscreen = !fullscreen;
    }
    push_when(&mut out, k.f11, ShortcutAction::ToggleFullscreen);
    push_when(&mut out, k.f5, ShortcutAction::ToggleTypewriter);
    if k.f && k.ctrl {
        search_open = true;
    }
    push_when(&mut out, k.f && k.ctrl, ShortcutAction::OpenFind);
    if k.h && k.ctrl {
        search_open = true;
    }
    push_when(&mut out, k.h && k.ctrl, ShortcutAction::OpenReplace);
    push_when(&mut out, k.f3 && !st.query_empty && k.shift, ShortcutAction::FindPrev);
    push_when(&mut out, k.f3 && !st.query_empty && !k.shift, ShortcutAction::FindNext);
    push_when(&mut out, k.escape && search_open, ShortcutAction::CloseSearch);
    push_when(&mut out, k.escape && !search_open && fullscreen, ShortcutAction::ToggleFullscreen);
    push_when(&mut out, k.comma && k.ctrl, ShortcutAction::ShowSettings);
    push_when(&mut out, k.tab && k.ctrl && !k.shift, ShortcutAction::NextDocument);
    push_when(&mut out, k.tab && k.ctrl && k.shift, ShortcutAction::PrevDocument);
    push_when(&mut out, k.home && k.ctrl, ShortcutAction::ScrollToTop);
    push_when(&mut out, k.end && k.ctrl, ShortcutAction::ScrollToBottom);
    out
}

} // verus!
