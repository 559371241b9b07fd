//! Where the input method's candidate window is anchored while composing
//! CJK text.
//!
//! The anchor follows the text cursor, except while a composition is in
//! progress and for a few frames after one ends: the text reflows under a
//! composition, and with fast typing the next composition begins right
//! after a commit, so a moving anchor would make the candidate window jump.

use vstd::prelude::*;

verus! {

/// Frames during which the anchor stays put after a composition ends.
pub const IME_COOLDOWN_FRAMES: u8 = 4;

/// An input-method event of one frame, as far as anchoring cares.
#[derive(Clone, Copy, Debug, PartialEq, Eq, Structural)]
pub enum ImeSignal {
    /// Preedit (composition) text arrived; `empty` when the composition was
    /// cancelled.
    Preedit { empty: bool },
    /// The composition was committed.
    Commit,
    /// Any other event.
    Other,
}

/// Whether a composition is in progress, and how many more frames the
/// anchor stays put after one ended.
#[derive(Clone, Copy, Debug, PartialEq, Eq, Structural)]
pub struct ImeState {
    pub composing: bool,
    pub cooldown: u8,
}

/// The state after `events`, taken in order, starting from `st`.
pub open spec fn after_events(st: ImeState, events: Seq<ImeSignal>) -> ImeState
    decreases events.len(),
{
    if events.len() == 0 {
        st
    } else {
        let before = after_events(st, events.drop_last());
        match events.last() {
            ImeSignal::Preedit { empty } => if empty {
                ImeState { composing: false, cooldown: IME_COOLDOWN_FRAMES }
            } else {
                ImeState { composing: true, cooldown: 0 }
            },
            ImeSignal::Commit => ImeState { composing: false, cooldown: IME_COOLDOWN_FRAMES },
            ImeSignal::Other => before,
        }
    }
}

/// The state at the end of a frame: the frame's events applied, then one
/// frame of cooldown spent.
pub open spec fn frame_step(st: ImeState, events: Seq<ImeSignal>) -> ImeState {
    let s = after_events(st, events);
    ImeState { cooldown: if s.cooldown > 0 { (s.cooldown - 1) as u8 } else { 0 }, ..s }
}

/// Some event of the frame carries preedit text (an empty one included).
pub open spec fn has_preedit(events: Seq<ImeSignal>) -> bool {
    exists|i: int| 0 <= i < events.len() && (#[trigger] events[i]) is Preedit
}

impl ImeState {
    pub fn new() -> (s: ImeState)
        ensures
            s == (ImeState { composing: false, cooldown: 0 }),
    {
        ImeState { composing: false, cooldown: 0 }
    }

    /// Takes in the input-method events of one frame, then spends one frame
    /// of cooldown.
    pub fn on_frame(&mut self, events: &Vec<ImeSignal>)
        ensures
            *final(self) == frame_step(*old(self), events@),
    {
        let mut i: usize = 0;
        while i < events.len()
            invariant
                i <= events.len(),
                *self == after_events(*old(self), events@.take(i as int)),
            decreases events.len() - i,
        {
            proof {
                assert(events@.take(i + 1).drop_last() =~= events@.take(i as int));
                assert(events@.take(i + 1).last() == events@[i as int]);
            }
            match events[i] {
                ImeSignal::Preedit { empty } => {
                    if empty {
                        self.composing = false;
                        self.cooldown = IME_COOLDOWN_FRAMES;
                    } else {
                        self.composing = true;
                        self.cooldown = 0;
                    }
                },
                ImeSignal::Commit => {
                    self.composing = false;
                    self.cooldown = IME_COOLDOWN_FRAMES;
                },
                ImeSignal::Other => {},
            }
            i += 1;
        }
        assert(events@.take(events.len() as int) =~= events@);
        if self.cooldown > 0 {
            self.cooldown -= 1;
        }
    }

    /// The anchor stays where it is: a composition is in progress or has
    /// just ended.
    pub fn position_locked(&self) -> (r: bool)
        ensures
            r == (self.composing || self.cooldown > 0),
    {
        self.composing || self.cooldown > 0
    }
}

/// Whether the frame's events carry preedit text; in such a frame the
/// cursor keys belong to the input method and no typing sound plays.
pub fn frame_has_preedit(events: &Vec<ImeSignal>) -> (r: bool)
    ensures
        r == has_preedit(events@),
{
    let mut i: usize = 0;
    while i < events.len()
        invariant
            i <= events.len(),
            forall|j: int| 0 <= j < i ==> !((#[trigger] events@[j]) is Preedit),
        decreases events.len() - i,
    {
        if let ImeSignal::Preedit { .. } = events[i] {
            return true;
        }
        i += 1;
    }
    false
}

/// Events other than preedit text and commits change nothing: the state
/// after `events` followed by such an event is the state after `events`.
pub proof fn lemma_other_events_change_nothing(st: ImeState, events: Seq<ImeSignal>)
    ensures
        after_events(st, events.push(ImeSignal::Other)) == after_events(st, events),
{
    assert(events.push(ImeSignal::Other).drop_last() =~= events);
}

/// A frame whose events are all neither preedit text nor commits keeps a
/// composition going (and the anchor locked), and otherwise only spends
/// one frame of cooldown.
pub proof fn lemma_unrelated_frame_keeps_composition(st: ImeState, events: Seq<ImeSignal>)
    requires
        forall|i: int| 0 <= i < events.len() ==> #[trigger] events[i] == ImeSignal::Other,
    ensures
        after_events(st, events) == st,
        frame_step(st, events).composing == st.composing,
        frame_step(st, events).cooldown == if st.cooldown > 0 {
            st.cooldown - 1
        } else {
            0
        },
    decreases events.len(),
{
    if events.len() > 0 {
        let rest = events.drop_last();
        assert forall|i: int| 0 <= i < rest.len() implies #[trigger] rest[i] == ImeSignal::Other by {
            assert(events[i] == ImeSignal::Other);
        }
        lemma_unrelated_frame_keeps_composition(st, rest);
        assert(events.last() == ImeSignal::Other);
    }
}

/// Whatever came before, non-empty preedit text starts (or continues) a
/// composition with no cooldown, while a commit or a cancelled (empty)
/// preedit ends it and starts a full cooldown.
pub proof fn lemma_preedit_and_commit_set_the_state(st: ImeState, events: Seq<ImeSignal>)
    ensures
        after_events(st, events.push(ImeSignal::Preedit { empty: false })) == (ImeState {
            composing: true,
            cooldown: 0,
        }),
        after_events(st, events.push(ImeSignal::Preedit { empty: true })) == (ImeState {
            composing: false,
            cooldown: IME_COOLDOWN_FRAMES,
        }),
        after_events(st, events.push(ImeSignal::Commit)) == (ImeState {
            composing: false,
            cooldown: IME_COOLDOWN_FRAMES,
        }),
{
    assert(events.push(ImeSignal::Preedit { empty: false }).drop_last() =~= events);
    assert(events.push(ImeSignal::Preedit { empty: true }).drop_last() =~= events);
    assert(events.push(ImeSignal::Commit).drop_last() =~= events);
}

/// The state after `k` frames without input-method events.
pub open spec fn quiet_frames(st: ImeState, k: nat) -> ImeState
    decreases k,
{
    if k == 0 {
        st
    } else {
        frame_step(quiet_frames(st, (k - 1) as nat), seq![])
    }
}

/// A commit ends the composition; the frame in which it arrives and each
/// quiet frame after it spend one frame of cooldown, so after `k` quiet
/// frames `IME_COOLDOWN_FRAMES - 1 - k` frames are left (none once they
/// run out), and the anchor is free again from then on.
pub proof fn lemma_commit_cooldown(st: ImeState, k: nat)
    ensures
        ({
            let s = quiet_frames(frame_step(st, seq![ImeSignal::Commit]), k);
            &&& !s.composing
            &&& s.cooldown == if k + 1 < IME_COOLDOWN_FRAMES {
                IME_COOLDOWN_FRAMES - 1 - k
            } else {
                0
            }
        }),
    decreases k,
{
    let e: Seq<ImeSignal> = seq![ImeSignal::Commit];
    assert(e.drop_last() =~= Seq::<ImeSignal>::empty());
    assert(e.last() == ImeSignal::Commit);
    if k > 0 {
        lemma_commit_cooldown(st, (k - 1) as nat);
        let prev = quiet_frames(frame_step(st, e), (k - 1) as nat);
        assert(after_events(prev, Seq::<ImeSignal>::empty()) == prev);
    }
}

} // verus!
