//! The set of keycodes currently physically held down, kept as an ascending
//! sequence so that the matcher can read it off in canonical order.

use vstd::prelude::*;

verus! {

/// Strictly ascending: sorted, and free of duplicates.
pub open spec fn ascending(s: Seq<u32>) -> bool {
    forall|i: int, j: int| 0 <= i < j < s.len() ==> s[i] < s[j]
}

/// Sorted insertion into an ascending sequence; inserting a code that is
/// already present changes nothing.
pub open spec fn seq_insert(s: Seq<u32>, x: u32) -> Seq<u32>
    decreases s.len(),
{
    if s.len() == 0 {
        seq![x]
    } else if x < s.first() {
        seq![x] + s
    } else if x == s.first() {
        s
    } else {
        seq![s.first()] + seq_insert(s.drop_first(), x)
    }
}

/// Removal of the first occurrence of a code; an absent code leaves the
/// sequence unchanged.
pub open spec fn seq_remove(s: Seq<u32>, x: u32) -> Seq<u32>
    decreases s.len(),
{
    if s.len() == 0 {
        s
    } else if s.first() == x {
        s.drop_first()
    } else {
        seq![s.first()] + seq_remove(s.drop_first(), x)
    }
}

/// Releasing a key that is not held is a no-op: the tracker tolerates
/// missed or duplicated device events without erring.
pub proof fn lemma_release_unheld(s: Seq<u32>, x: u32)
    requires
        !s.contains(x),
    ensures
        seq_remove(s, x) == s,
    decreases s.len(),
{
    if s.len() > 0 {
        assert(s[0] != x);
        assert(!s.drop_first().contains(x)) by {
            if s.drop_first().contains(x) {
                let i = choose|i: int| 0 <= i < s.drop_first().len() && s.drop_first()[i] == x;
                assert(s[i + 1] == x);
            }
        }
        lemma_release_unheld(s.drop_first(), x);
        assert(seq![s.first()] + s.drop_first() =~= s);
    }
}

/// Ascending order survives dropping the first element.
proof fn lemma_ascending_drop_first(s: Seq<u32>)
    requires
        ascending(s),
        s.len() > 0,
    ensures
        ascending(s.drop_first()),
{
    let t = s.drop_first();
    assert(forall|i: int, j: int|
        0 <= i < j < t.len() ==> s[i + 1] < s[j + 1] && t[i] == s[i + 1] && t[j] == s[j + 1]);
}

/// Pressing a key that is already held leaves the held set unchanged; the
/// press is nevertheless evaluated, with that key as the trigger.
pub proof fn lemma_repress_held(s: Seq<u32>, x: u32)
    requires
        ascending(s),
        s.contains(x),
    ensures
        seq_insert(s, x) == s,
    decreases s.len(),
{
    let i = choose|i: int| 0 <= i < s.len() && s[i] == x;
    if x == s.first() {
    } else if x < s.first() {
        if i > 0 {
            assert(s[0] < s[i]);
        }
        assert(false);
    } else {
        assert(i > 0);
        let t = s.drop_first();
        assert(t[i - 1] == x);
        assert(t.contains(x));
        lemma_ascending_drop_first(s);
        lemma_repress_held(t, x);
        assert(seq![s.first()] + t =~= s);
    }
}

/// Membership after an insertion: exactly the old members plus the
/// inserted code, whatever the order of events that built the set.
pub proof fn lemma_seq_insert_members(s: Seq<u32>, x: u32, y: u32)
    ensures
        seq_insert(s, x).contains(y) <==> (s.contains(y) || y == x),
    decreases s.len(),
{
    if s.len() == 0 {
        assert(seq_insert(s, x)[0] == x);
        assert(seq_insert(s, x).len() == 1);
        if seq_insert(s, x).contains(y) {
            let k = choose|k: int| 0 <= k < 1 && seq_insert(s, x)[k] == y;
        }
    } else if x < s.first() {
        let r = seq![x] + s;
        if r.contains(y) {
            let k = choose|k: int| 0 <= k < r.len() && r[k] == y;
            if k > 0 {
                assert(s[k - 1] == y);
            }
        }
        if s.contains(y) {
            let k = choose|k: int| 0 <= k < s.len() && s[k] == y;
            assert(r[k + 1] == y);
        }
        assert(r[0] == x);
    } else if x == s.first() {
    } else {
        let t = s.drop_first();
        lemma_seq_insert_members(t, x, y);
        let r = seq![s.first()] + seq_insert(t, x);
        if r.contains(y) {
            let k = choose|k: int| 0 <= k < r.len() && r[k] == y;
            if k > 0 {
                assert(seq_insert(t, x)[k - 1] == y);
            }
        }
        if s.contains(y) {
            let k = choose|k: int| 0 <= k < s.len() && s[k] == y;
            if k > 0 {
                assert(t[k - 1] == y);
                assert(t.contains(y));
            }
        }
        if t.contains(y) || y == x {
            let k = choose|k: int| 0 <= k < seq_insert(t, x).len() && seq_insert(t, x)[k] == y;
            assert(r[k + 1] == y);
        }
        if y == s.first() {
            assert(r[0] == y);
        }
        assert(s[0] == s.first());
    }
}

/// Membership after a removal from an ascending sequence: exactly the old
/// members except the removed code.
pub proof fn lemma_seq_remove_members(s: Seq<u32>, x: u32, y: u32)
    requires
        ascending(s),
    ensures
        seq_remove(s, x).contains(y) <==> (s.contains(y) && y != x),
    decreases s.len(),
{
    if s.len() == 0 {
    } else if s.first() == x {
        let t = s.drop_first();
        if t.contains(y) {
            let k = choose|k: int| 0 <= k < t.len() && t[k] == y;
            assert(s[k + 1] == y);
            assert(s[0] < s[k + 1]);
        }
        if s.contains(y) && y != x {
            let k = choose|k: int| 0 <= k < s.len() && s[k] == y;
            assert(k > 0);
            assert(t[k - 1] == y);
        }
    } else {
        let t = s.drop_first();
        lemma_ascending_drop_first(s);
        lemma_seq_remove_members(t, x, y);
        let r = seq![s.first()] + seq_remove(t, x);
        if r.contains(y) {
            let k = choose|k: int| 0 <= k < r.len() && r[k] == y;
            if k > 0 {
                assert(seq_remove(t, x)[k - 1] == y);
            } else {
                assert(y == s.first());
                assert(s[0] == y);
            }
        }
        if s.contains(y) && y != x {
            let k = choose|k: int| 0 <= k < s.len() && s[k] == y;
            if k > 0 {
                assert(t[k - 1] == y);
                assert(t.contains(y));
                let m = choose|m: int|
                    0 <= m < seq_remove(t, x).len() && seq_remove(t, x)[m] == y;
                assert(r[m + 1] == y);
            } else {
                assert(r[0] == y);
            }
        }
    }
}

/// Where `seq_insert` lands in an ascending sequence: at the index of the
/// first element not below it, either replacing nothing (the code is
/// already there) or shifting the rest right.
proof fn lemma_seq_insert_at(s: Seq<u32>, x: u32, pos: int)
    requires
        ascending(s),
        0 <= pos <= s.len(),
        forall|j: int| 0 <= j < pos ==> s[j] < x,
        pos < s.len() ==> s[pos] >= x,
    ensures
        pos < s.len() && s[pos] == x ==> seq_insert(s, x) == s,
        pos == s.len() || s[pos] > x ==> seq_insert(s, x) == s.insert(pos, x),
    decreases s.len(),
{
    if s.len() == 0 {
        assert(seq_insert(s, x) =~= s.insert(0, x));
    } else if pos == 0 {
        if s[0] > x {
            assert(seq_insert(s, x) =~= s.insert(0, x));
        }
    } else {
        assert(s[0] < x);
        let t = s.drop_first();
        lemma_ascending_drop_first(s);
        lemma_seq_insert_at(t, x, pos - 1);
        if pos < s.len() && s[pos] == x {
            assert(seq![s.first()] + t =~= s);
        } else {
            assert(seq![s.first()] + t.insert(pos - 1, x) =~= s.insert(pos, x));
        }
    }
}

/// Where `seq_remove` acts in an ascending sequence: it deletes the code at
/// its index if present, and does nothing otherwise.
proof fn lemma_seq_remove_at(s: Seq<u32>, x: u32, pos: int)
    requires
        ascending(s),
        0 <= pos <= s.len(),
        forall|j: int| 0 <= j < pos ==> s[j] < x,
        pos < s.len() ==> s[pos] >= x,
    ensures
        pos < s.len() && s[pos] == x ==> seq_remove(s, x) == s.remove(pos),
        pos == s.len() || s[pos] > x ==> seq_remove(s, x) == s,
    decreases s.len(),
{
    if s.len() == 0 {
    } else if pos == 0 {
        if s[0] == x {
            assert(seq_remove(s, x) == s.drop_first());
            assert(s.drop_first() =~= s.remove(0));
        } else {
            assert(!s.contains(x)) by {
                if s.contains(x) {
                    let i = choose|i: int| 0 <= i < s.len() && s[i] == x;
                    if i > 0 {
                        assert(s[0] < s[i]);
                    }
                }
            }
            lemma_release_unheld(s, x);
        }
    } else {
        assert(s[0] < x);
        let t = s.drop_first();
        lemma_ascending_drop_first(s);
        lemma_seq_remove_at(t, x, pos - 1);
        if pos < s.len() && s[pos] == x {
            assert(seq![s.first()] + t.remove(pos - 1) =~= s.remove(pos));
        } else {
            assert(seq![s.first()] + t =~= s);
        }
    }
}

/// The keycodes currently held down, ascending and without duplicates;
/// empty at startup, mutated only by press and release events.
pub struct HeldKeys {
    codes: Vec<u32>,
}

impl View for HeldKeys {
    type V = Seq<u32>;

    closed spec fn view(&self) -> Seq<u32> {
        self.codes@
    }
}

impl HeldKeys {
    /// Invariant: the held codes are strictly ascending.
    pub open spec fn wf(&self) -> bool {
        ascending(self@)
    }

    /// No keys are held at startup.
    pub fn new() -> (r: HeldKeys)
        ensures
            r@ == Seq::<u32>::empty(),
            r.wf(),
    {
        HeldKeys { codes: Vec::new() }
    }

    /// The held codes in ascending order, for the matcher's candidate.
    pub fn codes(&self) -> (r: &Vec<u32>)
        ensures
            r@ == self@,
    {
        &self.codes
    }

    /// A key went down: insert its code, idempotently.
    pub fn on_press(&mut self, code: u32)
        requires
            old(self).wf(),
        ensures
            final(self).wf(),
            final(self)@ == seq_insert(old(self)@, code),
    {
        let mut pos: usize = 0;
        while pos < self.codes.len() && self.codes[pos] < code
            invariant
                pos <= self.codes@.len(),
                forall|j: int| 0 <= j < pos ==> self.codes@[j] < code,
            decreases self.codes@.len() - pos,
        {
            pos = pos + 1;
        }
        proof {
            lemma_seq_insert_at(self@, code, pos as int);
        }
        if pos < self.codes.len() && self.codes[pos] == code {
            return ;
        }
        let ghost s = self@;
        self.codes.insert(pos, code);
        proof {
            s.insert_ensures(pos as int, code);
            assert(ascending(self@)) by {
                assert forall|i: int, j: int| 0 <= i < j < self@.len() implies self@[i]
                    < self@[j] by {
                    if j < pos {
                    } else if i < pos && j == pos {
                    } else if i < pos && j > pos {
                        if i < j - 1 {
                            assert(s[i] < s[j - 1]);
                        }
                    } else if i == pos {
                        if pos < j - 1 {
                            assert(s[pos as int] < s[j - 1]);
                        }
                    } else {
                        assert(s[i - 1] < s[j - 1]);
                    }
                }
            }
        }
    }

    /// A key came up: remove its code; releasing an unheld code is a no-op.
    pub fn on_release(&mut self, code: u32)
        requires
            old(self).wf(),
        ensures
            final(self).wf(),
            final(self)@ == seq_remove(old(self)@, code),
    {
        let mut pos: usize = 0;
        while pos < self.codes.len() && self.codes[pos] < code
            invariant
                pos <= self.codes@.len(),
                forall|j: int| 0 <= j < pos ==> self.codes@[j] < code,
            decreases self.codes@.len() - pos,
        {
            pos = pos + 1;
        }
        proof {
            lemma_seq_remove_at(self@, code, pos as int);
        }
        if pos < self.codes.len() && self.codes[pos] == code {
            let ghost s = self@;
            self.codes.remove(pos);
            proof {
                s.remove_ensures(pos as int);
                assert(ascending(self@)) by {
                    assert forall|i: int, j: int| 0 <= i < j < self@.len() implies self@[i]
                        < self@[j] by {
                        if j < pos {
                        } else if i < pos {
                            if i < j + 1 {
                                assert(s[i] < s[j + 1]);
                            }
                        } else {
                            assert(s[i + 1] < s[j + 1]);
                        }
                    }
                }
            }
        }
    }
}

} // verus!
