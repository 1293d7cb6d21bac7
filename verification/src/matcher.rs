//! Exact matching of one press event against the compiled hotkey table.
//!
//! A press matches a hotkey when the keys held before the press, listed
//! ascending and followed by the pressed key, equal the hotkey's canonical
//! sequence element for element. Every matching hotkey fires.

use vstd::prelude::*;

use crate::config::ParsedHotkey;

verus! {

/// The candidate sequence of a press: the keys held before the press in
/// ascending order, then the pressed key as the trigger.
pub open spec fn candidate_of(held: Seq<u32>, pressed: u32) -> Seq<u32> {
    held.push(pressed)
}

/// What a correct match result is: the indices, ascending and without
/// repetition, of exactly those hotkeys whose canonical sequence equals
/// the candidate.
pub open spec fn is_match_result(
    hotkeys: Seq<ParsedHotkey>,
    cand: Seq<u32>,
    r: Seq<usize>,
) -> bool {
    &&& forall|k: int|
        0 <= k < r.len() ==> (#[trigger] r[k]) < hotkeys.len() && hotkeys[r[k] as int].keys@
            == cand
    &&& forall|i: int|
        0 <= i < hotkeys.len() && (#[trigger] hotkeys[i]).keys@ == cand ==> r.contains(i as usize)
    &&& forall|k1: int, k2: int| 0 <= k1 < k2 < r.len() ==> r[k1] < r[k2]
}

/// Element-for-element comparison of two key sequences.
fn keys_eq(a: &Vec<u32>, b: &Vec<u32>) -> (r: bool)
    ensures
        r == (a@ == b@),
{
    if a.len() != b.len() {
        proof {
            assert(a@ != b@) by {
                if a@ == b@ {
                    assert(a@.len() == b@.len());
                }
            }
        }
        return false;
    }
    let mut i: usize = 0;
    while i < a.len()
        invariant
            i <= a@.len(),
            a@.len() == b@.len(),
            forall|j: int| 0 <= j < i ==> a@[j] == b@[j],
        decreases a@.len() - i,
    {
        if a[i] != b[i] {
            proof {
                assert(a@ != b@) by {
                    if a@ == b@ {
                        assert(a@[i as int] == b@[i as int]);
                    }
                }
            }
            return false;
        }
        i = i + 1;
    }
    proof {
        assert(a@ =~= b@);
    }
    true
}

/// Scan the whole table and collect every hotkey whose canonical sequence
/// equals the candidate; an empty result is not an error.
pub fn match_hotkeys(hotkeys: &Vec<ParsedHotkey>, cand: &Vec<u32>) -> (r: Vec<usize>)
    ensures
        is_match_result(hotkeys@, cand@, r@),
{
    let mut r: Vec<usize> = Vec::new();
    let mut i: usize = 0;
    while i < hotkeys.len()
        invariant
            i <= hotkeys@.len(),
            forall|k: int|
                0 <= k < r@.len() ==> (#[trigger] r@[k]) < i && hotkeys@[r@[k] as int].keys@
                    == cand@,
            forall|j: int|
                0 <= j < i && (#[trigger] hotkeys@[j]).keys@ == cand@ ==> r@.contains(j as usize),
            forall|k1: int, k2: int| 0 <= k1 < k2 < r@.len() ==> r@[k1] < r@[k2],
        decreases hotkeys@.len() - i,
    {
        if keys_eq(&hotkeys[i].keys, cand) {
            let ghost prev = r@;
            r.push(i);
            proof {
                assert forall|j: int|
                    0 <= j < i + 1 && (#[trigger] hotkeys@[j]).keys@ == cand@ implies r@.contains(
                    j as usize,
                ) by {
                    if j < i {
                        let k = choose|k: int| 0 <= k < prev.len() && prev[k] == j as usize;
                        assert(r@[k] == j as usize);
                    } else {
                        assert(r@[r@.len() - 1] == i as usize);
                    }
                }
            }
        }
        i = i + 1;
    }
    r
}

/// Two hotkeys compiled to one and the same canonical sequence both fire
/// on a single press that matches it.
pub proof fn lemma_shared_combo_both_fire(
    hotkeys: Seq<ParsedHotkey>,
    cand: Seq<u32>,
    r: Seq<usize>,
    i: int,
    j: int,
)
    requires
        is_match_result(hotkeys, cand, r),
        0 <= i < hotkeys.len(),
        0 <= j < hotkeys.len(),
        hotkeys[i].keys@ == hotkeys[j].keys@,
        hotkeys[i].keys@ == cand,
    ensures
        r.contains(i as usize),
        r.contains(j as usize),
{
}

} // verus!
