//! Launching matched commands and reaping exited children.
//!
//! The dispatcher decides exactly what is handed to the OS: the argv of the
//! privilege-separation call for each matched hotkey, and the bookkeeping of
//! the children it spawned. Spawning itself and the non-blocking poll are
//! the process spawner's side; the table records every outcome it reports.

use vstd::prelude::*;
use vstd::string::StrSliceExecFns;
use vstd::string::StringExecFns;

use crate::config::token_views;

verus! {

/// Key names joined with `','`, in table order.
pub open spec fn joined_keys(keys: Seq<Seq<char>>) -> Seq<char>
    decreases keys.len(),
{
    if keys.len() == 0 {
        Seq::<char>::empty()
    } else if keys.len() == 1 {
        keys[0]
    } else {
        joined_keys(keys.drop_last()) + seq![','] + keys.last()
    }
}

/// The names of the configured environment entries, in order.
pub open spec fn env_keys(env: Seq<(String, String)>) -> Seq<Seq<char>> {
    env.map_values(|kv: (String, String)| kv.0@)
}

/// The exact argv the dispatcher hands the OS for one matched hotkey: the
/// command runs as `run_as` through the privilege-separation tool, with
/// exactly the configured environment keys preserved, under a POSIX shell.
pub open spec fn command_argv(
    run_as: Seq<char>,
    env: Seq<(String, String)>,
    command: Seq<char>,
) -> Seq<Seq<char>> {
    seq![
        "sudo"@,
        "-u"@,
        run_as,
        "--preserve-env="@ + joined_keys(env_keys(env)),
        "sh"@,
        "-c"@,
        command,
    ]
}

/// Join the environment key names with `','`.
fn join_env_keys(env: &Vec<(String, String)>) -> (r: String)
    ensures
        r@ == joined_keys(env_keys(env@)),
{
    let mut r = String::new();
    let mut i: usize = 0;
    while i < env.len()
        invariant
            i <= env@.len(),
            r@ == joined_keys(env_keys(env@).subrange(0, i as int)),
        decreases env@.len() - i,
    {
        if i > 0 {
            r.append(",");
            proof {
                reveal_strlit(",");
                assert(","@ =~= seq![',']);
            }
        }
        r.append(env[i].0.as_str());
        proof {
            let ks = env_keys(env@);
            assert(ks.subrange(0, i + 1).drop_last() =~= ks.subrange(0, i as int));
            assert(ks.subrange(0, i + 1).last() == ks[i as int]);
            assert(ks[i as int] == env@[i as int].0@);
        }
        i = i + 1;
    }
    proof {
        assert(env_keys(env@).subrange(0, env@.len() as int) =~= env_keys(env@));
    }
    r
}

/// Build the argv for one matched hotkey's command.
pub fn build_command(run_as: &String, env: &Vec<(String, String)>, command: &String) -> (argv: Vec<
    String,
>)
    ensures
        token_views(argv@) == command_argv(run_as@, env@, command@),
{
    let mut argv: Vec<String> = Vec::new();
    argv.push(String::from_str("sudo"));
    argv.push(String::from_str("-u"));
    argv.push(run_as.clone());
    let mut preserve = String::from_str("--preserve-env=");
    preserve.append(join_env_keys(env).as_str());
    argv.push(preserve);
    argv.push(String::from_str("sh"));
    argv.push(String::from_str("-c"));
    argv.push(command.clone());
    proof {
        assert(token_views(argv@) =~= command_argv(run_as@, env@, command@));
    }
    argv
}

/// How many spawn attempts of a batch succeeded.
pub open spec fn count_true(s: Seq<bool>) -> nat
    decreases s.len(),
{
    if s.len() == 0 {
        0
    } else {
        count_true(s.drop_last()) + if s.last() {
            1nat
        } else {
            0nat
        }
    }
}

pub proof fn lemma_count_true_bound(s: Seq<bool>)
    ensures
        count_true(s) <= s.len(),
    decreases s.len(),
{
    if s.len() > 0 {
        lemma_count_true_bound(s.drop_last());
    }
}

/// The ids a poll reports exited, in table order; `ex[i]` says whether the
/// child at index `i` had exited.
pub open spec fn reaped(ids: Seq<u64>, ex: Seq<bool>) -> Seq<u64>
    decreases ids.len(),
{
    if ids.len() == 0 {
        Seq::<u64>::empty()
    } else {
        let rest = reaped(ids.drop_last(), ex);
        if ex[ids.len() - 1] {
            rest.push(ids.last())
        } else {
            rest
        }
    }
}

/// The ids still running after the poll, in table order.
pub open spec fn remaining(ids: Seq<u64>, ex: Seq<bool>) -> Seq<u64>
    decreases ids.len(),
{
    if ids.len() == 0 {
        ids
    } else {
        let rest = remaining(ids.drop_last(), ex);
        if ex[ids.len() - 1] {
            rest
        } else {
            rest.push(ids.last())
        }
    }
}

/// An element is in a pushed sequence exactly when it was there before or
/// is the pushed element.
proof fn lemma_push_contains(s: Seq<u64>, x: u64, y: u64)
    ensures
        s.push(x).contains(y) <==> (s.contains(y) || y == x),
{
    if s.push(x).contains(y) {
        let k = choose|k: int| 0 <= k < s.push(x).len() && s.push(x)[k] == y;
        if k < s.len() {
            assert(s[k] == y);
        }
    }
    if s.contains(y) {
        let k = choose|k: int| 0 <= k < s.len() && s[k] == y;
        assert(s.push(x)[k] == y);
    }
    assert(s.push(x)[s.len() as int] == x);
}

/// Reaping partitions the table: each id goes to the report or stays held,
/// never both and never twice, and exactly the exited ids are reported.
pub proof fn lemma_reap_partition(ids: Seq<u64>, ex: Seq<bool>)
    requires
        ex.len() >= ids.len(),
        ids.no_duplicates(),
    ensures
        reaped(ids, ex).no_duplicates(),
        remaining(ids, ex).no_duplicates(),
        forall|x: u64| #[trigger] reaped(ids, ex).contains(x) ==> ids.contains(x),
        forall|x: u64| #[trigger] remaining(ids, ex).contains(x) ==> ids.contains(x),
        forall|x: u64| !(#[trigger] reaped(ids, ex).contains(x) && remaining(ids, ex).contains(x)),
        forall|i: int| 0 <= i < ids.len() ==> (ex[i] <==> reaped(ids, ex).contains(#[trigger] ids[i])),
        forall|i: int|
            0 <= i < ids.len() ==> (!ex[i] <==> remaining(ids, ex).contains(#[trigger] ids[i])),
    decreases ids.len(),
{
    if ids.len() > 0 {
        let n = ids.len() as int;
        let pre = ids.drop_last();
        let x = ids.last();
        assert(pre.no_duplicates());
        lemma_reap_partition(pre, ex);
        assert(forall|i: int| 0 <= i < pre.len() ==> pre[i] == ids[i]);
        assert forall|y: u64| #[trigger] pre.contains(y) implies ids.contains(y) by {
            let k = choose|k: int| 0 <= k < pre.len() && pre[k] == y;
            assert(ids[k] == y);
        }
        assert(ids.contains(x)) by {
            assert(ids[n - 1] == x);
        }
        assert(!pre.contains(x)) by {
            if pre.contains(x) {
                let k = choose|k: int| 0 <= k < pre.len() && pre[k] == x;
                assert(ids[k] == ids[n - 1]);
            }
        }
        let rp = reaped(pre, ex);
        let rm = remaining(pre, ex);
        let grown = if ex[n - 1] {
            rp
        } else {
            rm
        };
        assert(forall|y: u64| #[trigger]
            grown.push(x).contains(y) <==> (grown.contains(y) || y == x)) by {
            assert forall|y: u64| true implies (#[trigger] grown.push(x).contains(y) <==> (
            grown.contains(y) || y == x)) by {
                lemma_push_contains(grown, x, y);
            }
        }
        assert(grown.push(x).no_duplicates()) by {
            assert forall|i: int, j: int|
                0 <= i < j < grown.push(x).len() implies grown.push(x)[i] != grown.push(
                x,
            )[j] by {
                if j == grown.len() {
                    assert(grown.push(x)[i] == grown[i]);
                    assert(grown.contains(grown[i]));
                    assert(!grown.contains(x));
                }
            }
        }
    }
}

/// A later reap over what stayed behind never reports an id an earlier
/// reap already reported: no exit is ever reported twice.
pub proof fn lemma_reap_never_repeats(ids: Seq<u64>, ex1: Seq<bool>, ex2: Seq<bool>)
    requires
        ids.no_duplicates(),
        ex1.len() == ids.len(),
        ex2.len() == remaining(ids, ex1).len(),
    ensures
        forall|x: u64| #[trigger]
            reaped(ids, ex1).contains(x) ==> !reaped(remaining(ids, ex1), ex2).contains(x),
{
    lemma_reap_partition(ids, ex1);
    lemma_reap_partition(remaining(ids, ex1), ex2);
}

/// Bookkeeping of the children the dispatcher spawned: each is known by the
/// id it was registered under, in spawn order.
pub struct ProcessTable {
    ids: Vec<u64>,
    next_id: u64,
}

impl View for ProcessTable {
    type V = Seq<u64>;

    closed spec fn view(&self) -> Seq<u64> {
        self.ids@
    }
}

impl ProcessTable {
    /// The id the next registered child will get.
    pub closed spec fn next(&self) -> u64 {
        self.next_id
    }

    /// Invariant: ids are never reused, so every exit can be attributed.
    pub open spec fn wf(&self) -> bool {
        &&& self@.no_duplicates()
        &&& forall|i: int| 0 <= i < self@.len() ==> self@[i] < self.next()
    }

    /// An empty table: no children yet, ids start at zero.
    pub fn new() -> (r: ProcessTable)
        ensures
            r@ == Seq::<u64>::empty(),
            r.next() == 0,
            r.wf(),
    {
        ProcessTable { ids: Vec::new(), next_id: 0 }
    }

    /// How many children are tracked.
    pub fn len(&self) -> (n: usize)
        ensures
            n == self@.len(),
    {
        self.ids.len()
    }

    /// Record one spawned child under a fresh id.
    pub fn register(&mut self) -> (id: u64)
        requires
            old(self).wf(),
            old(self).next() < u64::MAX,
        ensures
            final(self).wf(),
            id == old(self).next(),
            final(self)@ == old(self)@.push(id),
            final(self).next() == old(self).next() + 1,
    {
        let id = self.next_id;
        self.ids.push(id);
        self.next_id = self.next_id + 1;
        id
    }

    /// Record the outcomes of one event's spawn attempts, in match order:
    /// every success is registered under the next fresh id, and no failure
    /// keeps a later success from being registered.
    pub fn register_spawned(&mut self, outcomes: &Vec<bool>) -> (r: Vec<Option<u64>>)
        requires
            old(self).wf(),
            old(self).next() + outcomes@.len() <= u64::MAX,
        ensures
            final(self).wf(),
            r@.len() == outcomes@.len(),
            forall|i: int| 0 <= i < r@.len() ==> ((#[trigger] r@[i]) is Some <==> outcomes@[i]),
            forall|i: int|
                0 <= i < r@.len() && outcomes@[i] ==> (#[trigger] r@[i]) == Some(
                    (old(self).next() + count_true(outcomes@.subrange(0, i))) as u64,
                ),
            final(self)@ == old(self)@ + Seq::new(
                count_true(outcomes@),
                |k: int| (old(self).next() + k) as u64,
            ),
            final(self).next() == old(self).next() + count_true(outcomes@),
    {
        let ghost base_ids = self@;
        let ghost base_next = self.next();
        let mut r: Vec<Option<u64>> = Vec::new();
        let mut i: usize = 0;
        proof {
            assert(outcomes@.subrange(0, 0) =~= Seq::<bool>::empty());
            assert(base_ids + Seq::new(0, |k: int| (base_next + k) as u64) =~= base_ids);
        }
        while i < outcomes.len()
            invariant
                i <= outcomes@.len(),
                r@.len() == i,
                self.wf(),
                base_next + outcomes@.len() <= u64::MAX,
                self.next() == base_next + count_true(outcomes@.subrange(0, i as int)),
                self@ == base_ids + Seq::new(
                    count_true(outcomes@.subrange(0, i as int)),
                    |k: int| (base_next + k) as u64,
                ),
                forall|j: int| 0 <= j < i ==> ((#[trigger] r@[j]) is Some <==> outcomes@[j]),
                forall|j: int|
                    0 <= j < i && outcomes@[j] ==> (#[trigger] r@[j]) == Some(
                        (base_next + count_true(outcomes@.subrange(0, j))) as u64,
                    ),
            decreases outcomes@.len() - i,
        {
            proof {
                assert(outcomes@.subrange(0, i + 1).drop_last() =~= outcomes@.subrange(
                    0,
                    i as int,
                ));
                assert(outcomes@.subrange(0, i + 1).last() == outcomes@[i as int]);
                lemma_count_true_bound(outcomes@.subrange(0, i as int));
            }
            if outcomes[i] {
                let id = self.register();
                r.push(Some(id));
                proof {
                    let ct = count_true(outcomes@.subrange(0, i + 1));
                    assert(self@ =~= base_ids + Seq::new(ct, |k: int| (base_next + k) as u64));
                }
            } else {
                r.push(None);
            }
            i = i + 1;
        }
        proof {
            assert(outcomes@.subrange(0, outcomes@.len() as int) =~= outcomes@);
        }
        r
    }

    /// Remove every child the poll reports exited and hand back their ids,
    /// each exactly once; running children are untouched.
    pub fn reap(&mut self, exited: &Vec<bool>) -> (events: Vec<u64>)
        requires
            old(self).wf(),
            exited@.len() == old(self)@.len(),
        ensures
            final(self).wf(),
            events@ == reaped(old(self)@, exited@),
            final(self)@ == remaining(old(self)@, exited@),
            final(self).next() == old(self).next(),
    {
        let ghost base_ids = self@;
        let mut events: Vec<u64> = Vec::new();
        let mut kept: Vec<u64> = Vec::new();
        let mut i: usize = 0;
        proof {
            assert(base_ids.subrange(0, 0) =~= Seq::<u64>::empty());
            assert(reaped(base_ids.subrange(0, 0), exited@) =~= Seq::<u64>::empty());
            assert(remaining(base_ids.subrange(0, 0), exited@) =~= Seq::<u64>::empty());
        }
        while i < self.ids.len()
            invariant
                i <= self.ids@.len(),
                base_ids == self.ids@,
                exited@.len() == self.ids@.len(),
                events@ == reaped(base_ids.subrange(0, i as int), exited@),
                kept@ == remaining(base_ids.subrange(0, i as int), exited@),
            decreases self.ids@.len() - i,
        {
            proof {
                assert(base_ids.subrange(0, i + 1).drop_last() =~= base_ids.subrange(0, i as int));
                assert(base_ids.subrange(0, i + 1).last() == base_ids[i as int]);
            }
            if exited[i] {
                events.push(self.ids[i]);
            } else {
                kept.push(self.ids[i]);
            }
            i = i + 1;
        }
        proof {
            assert(base_ids.subrange(0, base_ids.len() as int) =~= base_ids);
        }
        self.ids = kept;
        proof {
            lemma_reap_partition(base_ids, exited@);
            assert forall|i: int| 0 <= i < self@.len() implies self@[i] < self.next() by {
                assert(self@.contains(self@[i]));
                assert(base_ids.contains(self@[i]));
                let k = choose|k: int| 0 <= k < base_ids.len() && base_ids[k] == self@[i];
                assert(base_ids[k] < self.next());
            }
        }
        events
    }
}

} // verus!
