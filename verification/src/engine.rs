//! The per-event step of the daemon's polling loop: bookkeeping first, then
//! matching, so that the held-key state reflects an event before any later
//! event is evaluated.

use vstd::prelude::*;

use crate::config::ParsedHotkey;
use crate::matcher::candidate_of;
use crate::matcher::is_match_result;
use crate::matcher::match_hotkeys;
use crate::tracker::seq_insert;
use crate::tracker::seq_remove;
use crate::tracker::HeldKeys;

verus! {

/// Whether a key went down or came up.
#[derive(Clone, Copy, PartialEq, Eq, Structural, Debug)]
pub enum KeyState {
    Pressed,
    Released,
}

/// One keyboard event from the input source.
#[derive(Clone, Copy, PartialEq, Eq, Structural, Debug)]
pub struct KeyEvent {
    pub state: KeyState,
    pub code: u32,
}

/// What one event does to the held-key state: a press inserts its code, a
/// release removes it.
pub open spec fn step_held(held: Seq<u32>, event: KeyEvent) -> Seq<u32> {
    match event.state {
        KeyState::Pressed => seq_insert(held, event.code),
        KeyState::Released => seq_remove(held, event.code),
    }
}

/// The held-key state after a batch of events, applied in emission order.
pub open spec fn held_after(held: Seq<u32>, events: Seq<KeyEvent>) -> Seq<u32>
    decreases events.len(),
{
    if events.len() == 0 {
        held
    } else {
        step_held(held_after(held, events.drop_last()), events.last())
    }
}

/// Process one keyboard event, in emission order: a press is evaluated
/// against the keys held before it and then recorded; a release only
/// updates the held set and never fires anything.
pub fn handle_event(held: &mut HeldKeys, hotkeys: &Vec<ParsedHotkey>, event: KeyEvent) -> (fired:
    Vec<usize>)
    requires
        old(held).wf(),
    ensures
        final(held).wf(),
        match event.state {
            KeyState::Pressed => {
                &&& is_match_result(hotkeys@, candidate_of(old(held)@, event.code), fired@)
                &&& final(held)@ == seq_insert(old(held)@, event.code)
            },
            KeyState::Released => {
                &&& fired@.len() == 0
                &&& final(held)@ == seq_remove(old(held)@, event.code)
            },
        },
{
    match event.state {
        KeyState::Pressed => {
            let mut cand: Vec<u32> = Vec::new();
            let codes = held.codes();
            let mut i: usize = 0;
            while i < codes.len()
                invariant
                    i <= codes@.len(),
                    cand@ == codes@.subrange(0, i as int),
                decreases codes@.len() - i,
            {
                cand.push(codes[i]);
                proof {
                    assert(cand@ =~= codes@.subrange(0, i + 1));
                }
                i = i + 1;
            }
            proof {
                assert(codes@.subrange(0, codes@.len() as int) =~= codes@);
            }
            cand.push(event.code);
            let fired = match_hotkeys(hotkeys, &cand);
            held.on_press(event.code);
            fired
        },
        KeyState::Released => {
            held.on_release(event.code);
            Vec::new()
        },
    }
}

/// Process a whole polled batch strictly in emission order: the held-key
/// state reflects event `k` before event `k + 1` is evaluated, and each
/// press is matched against the state left behind by the events before it.
pub fn handle_events(held: &mut HeldKeys, hotkeys: &Vec<ParsedHotkey>, events: &Vec<KeyEvent>) -> (
    fired: Vec<Vec<usize>>)
    requires
        old(held).wf(),
    ensures
        final(held).wf(),
        final(held)@ == held_after(old(held)@, events@),
        fired@.len() == events@.len(),
        forall|k: int|
            0 <= k < events@.len() ==> match (#[trigger] events@[k]).state {
                KeyState::Pressed => is_match_result(
                    hotkeys@,
                    candidate_of(held_after(old(held)@, events@.subrange(0, k)), events@[k].code),
                    fired@[k]@,
                ),
                KeyState::Released => fired@[k]@.len() == 0,
            },
{
    let ghost init = old(held)@;
    let mut fired: Vec<Vec<usize>> = Vec::new();
    let mut i: usize = 0;
    proof {
        assert(events@.subrange(0, 0) =~= Seq::<KeyEvent>::empty());
    }
    while i < events.len()
        invariant
            i <= events@.len(),
            held.wf(),
            held@ == held_after(init, events@.subrange(0, i as int)),
            fired@.len() == i,
            forall|k: int|
                0 <= k < i ==> match (#[trigger] events@[k]).state {
                    KeyState::Pressed => is_match_result(
                        hotkeys@,
                        candidate_of(held_after(init, events@.subrange(0, k)), events@[k].code),
                        fired@[k]@,
                    ),
                    KeyState::Released => fired@[k]@.len() == 0,
                },
        decreases events@.len() - i,
    {
        proof {
            assert(events@.subrange(0, i + 1).drop_last() =~= events@.subrange(0, i as int));
            assert(events@.subrange(0, i + 1).last() == events@[i as int]);
        }
        let f = handle_event(held, hotkeys, events[i]);
        fired.push(f);
        i = i + 1;
    }
    proof {
        assert(events@.subrange(0, events@.len() as int) =~= events@);
    }
    fired
}

} // verus!
