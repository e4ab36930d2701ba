//! The token registry: for each target, the ticket of the newest command
//! issued for it. A command whose ticket is no longer the newest for its
//! target has been superseded and is skipped by the worker.
use vstd::prelude::*;
use crate::command::Target;

verus! {

/// What a registry holds: the newest ticket per target, and the ticket that
/// the next command will get.
pub struct RegistryModel {
    pub latest: Map<Target, u64>,
    pub next: u64,
}

impl RegistryModel {
    /// Every ticket on record was handed out before `next`.
    pub open spec fn wf(self) -> bool {
        forall|t: Target| #[trigger] self.latest.contains_key(t) ==> self.latest[t] < self.next
    }

    /// The registry after one more command for `target` was issued.
    pub open spec fn issue(self, target: Target) -> RegistryModel {
        RegistryModel { latest: self.latest.insert(target, self.next), next: (self.next + 1) as u64 }
    }

    /// The command for `target` holding `ticket` was superseded by a newer one.
    pub open spec fn cancelled(self, target: Target, ticket: u64) -> bool {
        self.latest.contains_key(target) && self.latest[target] != ticket
    }
}

pub struct TokenRegistry {
    entries: Vec<(Target, u64)>,
    next: u64,
    model: Ghost<Map<Target, u64>>,
}

impl View for TokenRegistry {
    type V = RegistryModel;

    closed spec fn view(&self) -> RegistryModel {
        RegistryModel { latest: self.model@, next: self.next }
    }
}

impl TokenRegistry {
    /// The entries list each target once, and agree with the model.
    pub closed spec fn wf(&self) -> bool {
        &&& self@.wf()
        &&& forall|i: int, j: int|
            0 <= i < j < self.entries@.len() ==> #[trigger] self.entries@[i].0
                != #[trigger] self.entries@[j].0
        &&& forall|i: int|
            0 <= i < self.entries@.len() ==> #[trigger] self.model@.contains_key(
                self.entries@[i].0,
            ) && self.model@[self.entries@[i].0] == self.entries@[i].1
        &&& forall|t: Target|
            #[trigger] self.model@.contains_key(t) ==> exists|i: int|
                0 <= i < self.entries@.len() && #[trigger] self.entries@[i].0 == t
    }

    pub fn new() -> (r: TokenRegistry)
        ensures
            r.wf(),
            r@.latest == Map::<Target, u64>::empty(),
            r@.next == 0,
    {
        TokenRegistry { entries: Vec::new(), next: 0, model: Ghost(Map::empty()) }
    }

    fn find(&self, target: Target) -> (r: Option<usize>)
        requires
            self.wf(),
        ensures
            match r {
                Some(i) => i < self.entries@.len() && self.entries@[i as int].0 == target,
                None => !self@.latest.contains_key(target),
            },
    {
        let mut i: usize = 0;
        while i < self.entries.len()
            invariant
                self.wf(),
                i <= self.entries@.len(),
                forall|j: int| 0 <= j < i ==> self.entries@[j].0 != target,
            decreases self.entries@.len() - i,
        {
            if self.entries[i].0 == target {
                return Some(i);
            }
            i = i + 1;
        }
        None
    }

    /// Records a new command for `target` and hands out its ticket; the
    /// command that held the target before is superseded from now on.
    /// `None` once every ticket has been handed out.
    pub fn issue(&mut self, target: Target) -> (r: Option<u64>)
        requires
            old(self).wf(),
        ensures
            final(self).wf(),
            match r {
                Some(t) => t == old(self)@.next && final(self)@ == old(self)@.issue(target),
                None => old(self)@.next == u64::MAX && final(self)@ == old(self)@,
            },
    {
        if self.next == u64::MAX {
            return None;
        }
        let t = self.next;
        let ghost old_entries = self.entries@;
        let ghost pos: int;
        match self.find(target) {
            Some(i) => {
                self.entries.set(i, (target, t));
                proof { pos = i as int; }
            },
            None => {
                self.entries.push((target, t));
                proof { pos = old_entries.len() as int; }
            },
        }
        self.next = t + 1;
        self.model = Ghost(self.model@.insert(target, t));
        assert forall|u: Target| #[trigger] self@.latest.contains_key(u) implies self@.latest[u]
            < self@.next by {
            if u != target {
                assert(old(self)@.latest.contains_key(u));
            }
        }
        assert forall|i: int, j: int|
            0 <= i < j < self.entries@.len() implies #[trigger] self.entries@[i].0
                != #[trigger] self.entries@[j].0 by {
            if i != pos && j != pos {
                assert(old_entries[i].0 != old_entries[j].0);
            } else if i == pos && j < old_entries.len() {
                assert(old_entries[j].0 != old_entries[pos].0);
            } else if j == pos && pos < old_entries.len() {
                assert(old_entries[i].0 != old_entries[pos].0);
            } else {
                assert(old(self).model@.contains_key(old_entries[i].0));
            }
        }
        assert forall|i: int|
            0 <= i < self.entries@.len() implies #[trigger] self.model@.contains_key(
                self.entries@[i].0,
            ) && self.model@[self.entries@[i].0] == self.entries@[i].1 by {
            if i != pos {
                assert(self.entries@[i] == old_entries[i]);
            }
        }
        assert forall|u: Target| #[trigger] self.model@.contains_key(u) implies exists|i: int|
            0 <= i < self.entries@.len() && #[trigger] self.entries@[i].0 == u by {
            if u == target {
                assert(self.entries@[pos].0 == u);
            } else {
                let w = choose|i: int| 0 <= i < old_entries.len() && #[trigger] old_entries[i].0 == u;
                assert(self.entries@[w].0 == u);
            }
        }
        Some(t)
    }

    /// Whether the command for `target` holding `ticket` has been superseded.
    pub fn is_cancelled(&self, target: Target, ticket: u64) -> (r: bool)
        requires
            self.wf(),
        ensures
            r == self@.cancelled(target, ticket),
    {
        match self.find(target) {
            Some(i) => {
                proof {
                    assert(self.model@.contains_key(self.entries@[i as int].0));
                }
                self.entries[i].1 != ticket
            },
            None => false,
        }
    }
}

/// The registry after commands for `targets` were issued, in order.
pub open spec fn issue_all(m: RegistryModel, targets: Seq<Target>) -> RegistryModel
    decreases targets.len(),
{
    if targets.len() == 0 {
        m
    } else {
        issue_all(m, targets.drop_last()).issue(targets.last())
    }
}

proof fn lemma_issue_all_next(m: RegistryModel, targets: Seq<Target>)
    requires
        m.wf(),
        m.next + targets.len() <= u64::MAX,
    ensures
        issue_all(m, targets).wf(),
        issue_all(m, targets).next == m.next + targets.len(),
    decreases targets.len(),
{
    if targets.len() > 0 {
        lemma_issue_all_next(m, targets.drop_last());
        let mp = issue_all(m, targets.drop_last());
        let mq = issue_all(m, targets);
        assert forall|t: Target| #[trigger] mq.latest.contains_key(t) implies mq.latest[t]
            < mq.next by {
            if t != targets.last() {
                assert(mp.latest.contains_key(t));
            }
        }
    }
}

proof fn lemma_issue_all_ticket(m: RegistryModel, targets: Seq<Target>, i: int)
    requires
        m.wf(),
        m.next + targets.len() <= u64::MAX,
        0 <= i < targets.len(),
    ensures
        issue_all(m, targets).latest.contains_key(targets[i]),
        issue_all(m, targets).latest[targets[i]] >= m.next + i,
        issue_all(m, targets).latest[targets[i]] == m.next + i <==> !exists|j: int|
            i < j < targets.len() && targets[j] == targets[i],
    decreases targets.len(),
{
    let n = targets.len() - 1;
    let p = targets.drop_last();
    if i < n {
        lemma_issue_all_ticket(m, p, i);
        lemma_issue_all_next(m, p);
        assert(targets[i] == p[i]);
        if targets[i] == targets[n] {
            assert(i < n && targets[n] == targets[i]);
        } else {
            if exists|j: int| i < j < targets.len() && targets[j] == targets[i] {
                let j = choose|j: int| i < j < targets.len() && targets[j] == targets[i];
                assert(p[j] == p[i]);
            }
            if exists|j: int| i < j < p.len() && p[j] == p[i] {
                let j = choose|j: int| i < j < p.len() && p[j] == p[i];
                assert(targets[j] == targets[i]);
            }
        }
    } else {
        lemma_issue_all_next(m, p);
    }
}

/// Issuing a run of commands hands out consecutive tickets, and a command is
/// superseded exactly when a later command of the run has the same target.
pub proof fn law_superseded_by_later(m: RegistryModel, targets: Seq<Target>)
    requires
        m.wf(),
        m.next + targets.len() <= u64::MAX,
    ensures
        issue_all(m, targets).wf(),
        issue_all(m, targets).next == m.next + targets.len(),
        forall|i: int|
            0 <= i < targets.len() ==> (issue_all(m, targets).cancelled(
                #[trigger] targets[i],
                (m.next + i) as u64,
            ) <==> exists|j: int| i < j < targets.len() && targets[j] == targets[i]),
{
    lemma_issue_all_next(m, targets);
    assert forall|i: int| 0 <= i < targets.len() implies (issue_all(m, targets).cancelled(
        #[trigger] targets[i],
        (m.next + i) as u64,
    ) <==> exists|j: int| i < j < targets.len() && targets[j] == targets[i]) by {
        lemma_issue_all_ticket(m, targets, i);
    }
}

} // verus!
