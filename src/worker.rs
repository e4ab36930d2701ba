//! The worker's decisions: what to do with each command taken off the queue,
//! how long the poll loop sleeps, and what a caller finally sees.
use vstd::prelude::*;
use crate::boards::BoardSet;
use crate::command::{BoardId, Command, Target};
use crate::matrix::MatrixView;
use crate::registry::{issue_all, law_superseded_by_later, RegistryModel};

verus! {

/// How long the poll loop sleeps, in milliseconds, while no poll rate is set.
pub const IDLE_POLL_MS: u64 = 100;

/// What the worker does with one command taken off the queue.
#[derive(Clone, Copy, Debug, PartialEq, Eq, Structural)]
pub enum Dispatch {
    /// The command was superseded: drop its reply slot, touch no device.
    Skip,
    /// Make this call on the device and reply with its result.
    Device(Command),
    /// Already done on the worker's own state: reply success.
    Done,
    /// Reconcile the known boards and reply with the result.
    Refresh,
    /// Leave the dispatch loop; no later command is run or answered.
    Stop,
}

/// What the worker does with `cmd`, given whether it was superseded.
pub open spec fn dispatch_spec(cancelled: bool, cmd: Command) -> Dispatch {
    if cancelled {
        Dispatch::Skip
    } else {
        match cmd {
            Command::MatrixGetRate { .. } => Dispatch::Done,
            Command::Refresh => Dispatch::Refresh,
            Command::Exit => Dispatch::Stop,
            _ => Dispatch::Device(cmd),
        }
    }
}

/// The poll rate after the worker took `cmd` off the queue.
pub open spec fn rate_after(cancelled: bool, cmd: Command, rate: Option<u64>) -> Option<u64> {
    match cmd {
        Command::MatrixGetRate { rate: r } => if cancelled {
            rate
        } else {
            r
        },
        _ => rate,
    }
}

/// What goes into the reply slot: nothing for a skipped command or a stop,
/// otherwise `outcome`, the result of the device call or the refresh, or
/// success for a command done on the worker's state.
pub open spec fn reply_of(d: Dispatch, outcome: Result<(), String>) -> Option<Result<(), String>> {
    match d {
        Dispatch::Skip | Dispatch::Stop => None,
        Dispatch::Done => Some(Ok(())),
        Dispatch::Device(_) | Dispatch::Refresh => Some(outcome),
    }
}

/// What a caller sees: the reply, or success if the slot was dropped.
pub open spec fn resolved(reply: Option<Result<(), String>>) -> Result<(), String> {
    match reply {
        Some(r) => r,
        None => Ok(()),
    }
}

impl Dispatch {
    /// The reply that this dispatch sends, given the outcome of its work.
    pub fn reply(&self, outcome: Result<(), String>) -> (r: Option<Result<(), String>>)
        ensures
            r == reply_of(*self, outcome),
    {
        match self {
            Dispatch::Skip | Dispatch::Stop => None,
            Dispatch::Done => Some(Ok(())),
            Dispatch::Device(_) | Dispatch::Refresh => Some(outcome),
        }
    }
}

/// What a caller's await yields: the reply sent, or success when the reply
/// slot was dropped unanswered.
pub fn resolve(reply: Option<Result<(), String>>) -> (r: Result<(), String>)
    ensures
        r == resolved(reply),
{
    match reply {
        Some(r) => r,
        None => Ok(()),
    }
}

/// One pass of the poll loop: sleep this long, then diff the snapshots or not.
#[derive(Clone, Copy, Debug, PartialEq, Eq, Structural)]
pub struct PollPlan {
    pub delay_ms: u64,
    pub diff: bool,
}

pub open spec fn poll_plan_spec(rate: Option<u64>) -> PollPlan {
    match rate {
        Some(d) => PollPlan { delay_ms: d, diff: true },
        None => PollPlan { delay_ms: IDLE_POLL_MS, diff: false },
    }
}

/// The state that only the worker's thread touches: the known boards, each
/// with the channel `S` its snapshots go out on, and the poll rate.
pub struct Worker<S> {
    pub boards: BoardSet<S>,
    pub rate: Option<u64>,
}

impl<S> Worker<S> {
    pub open spec fn wf(&self) -> bool {
        self.boards.wf()
    }

    pub fn new() -> (r: Worker<S>)
        ensures
            r.wf(),
            r.boards@ == Seq::<(BoardId, MatrixView, S)>::empty(),
            r.rate.is_none(),
    {
        Worker { boards: BoardSet::new(), rate: None }
    }

    /// Decides what to do with `cmd`, taken off the queue; `cancelled` says
    /// whether a newer command for its target has been issued since. A poll
    /// rate takes effect here.
    pub fn handle(&mut self, cancelled: bool, cmd: &Command) -> (r: Dispatch)
        ensures
            r == dispatch_spec(cancelled, *cmd),
            final(self).rate == rate_after(cancelled, *cmd, old(self).rate),
            final(self).boards == old(self).boards,
    {
        if cancelled {
            return Dispatch::Skip;
        }
        match *cmd {
            Command::MatrixGetRate { rate } => {
                self.rate = rate;
                Dispatch::Done
            },
            Command::Refresh => Dispatch::Refresh,
            Command::Exit => Dispatch::Stop,
            _ => Dispatch::Device(*cmd),
        }
    }

    /// The next pass of the poll loop.
    pub fn poll_plan(&self) -> (r: PollPlan)
        ensures
            r == poll_plan_spec(self.rate),
    {
        match self.rate {
            Some(d) => PollPlan { delay_ms: d, diff: true },
            None => PollPlan { delay_ms: IDLE_POLL_MS, diff: false },
        }
    }
}

/// The dispatches of a queue drained in order, where `flags[i]` says whether
/// command `i` was superseded; nothing follows a stop.
pub open spec fn run(flags: Seq<bool>, cmds: Seq<Command>) -> Seq<Dispatch>
    decreases cmds.len(),
{
    if cmds.len() == 0 {
        Seq::empty()
    } else {
        let d = dispatch_spec(flags[0], cmds[0]);
        if d == Dispatch::Stop {
            seq![d]
        } else {
            seq![d] + run(flags.skip(1), cmds.skip(1))
        }
    }
}

pub open spec fn targets_of(cmds: Seq<Command>) -> Seq<Target> {
    cmds.map_values(|c: Command| c.target_spec())
}

/// Whether each command of `cmds` is superseded once all of them were
/// issued, in order, on a registry that held `m`.
pub open spec fn cancel_flags(m: RegistryModel, cmds: Seq<Command>) -> Seq<bool> {
    Seq::new(
        cmds.len(),
        |i: int| issue_all(m, targets_of(cmds)).cancelled(cmds[i].target_spec(), (m.next + i) as u64),
    )
}

proof fn lemma_run_aligned(flags: Seq<bool>, cmds: Seq<Command>)
    requires
        flags.len() == cmds.len(),
    ensures
        run(flags, cmds).len() <= cmds.len(),
        forall|i: int|
            0 <= i < run(flags, cmds).len() ==> #[trigger] run(flags, cmds)[i] == dispatch_spec(
                flags[i],
                cmds[i],
            ),
        forall|i: int|
            0 <= i < run(flags, cmds).len() - 1 ==> #[trigger] run(flags, cmds)[i]
                != Dispatch::Stop,
        run(flags, cmds).len() < cmds.len() ==> run(flags, cmds).len() > 0 && run(
            flags,
            cmds,
        ).last() == Dispatch::Stop,
    decreases cmds.len(),
{
    if cmds.len() > 0 {
        let d = dispatch_spec(flags[0], cmds[0]);
        if d != Dispatch::Stop {
            let f1 = flags.skip(1);
            let c1 = cmds.skip(1);
            lemma_run_aligned(f1, c1);
            let r1 = run(f1, c1);
            let r = run(flags, cmds);
            assert(r == seq![d] + r1);
            assert forall|i: int| 0 <= i < r.len() implies #[trigger] r[i] == dispatch_spec(
                flags[i],
                cmds[i],
            ) by {
                if i > 0 {
                    assert(r[i] == r1[i - 1]);
                    assert(f1[i - 1] == flags[i]);
                    assert(c1[i - 1] == cmds[i]);
                }
            }
            assert forall|i: int| 0 <= i < r.len() - 1 implies #[trigger] r[i]
                != Dispatch::Stop by {
                if i > 0 {
                    assert(r[i] == r1[i - 1]);
                }
            }
        }
    }
}

/// The queue is worked in the order of issue: the `i`-th dispatch is that of
/// the `i`-th command, and commands whose targets all differ are none of them
/// skipped.
pub proof fn law_in_order(m: RegistryModel, cmds: Seq<Command>)
    requires
        m.wf(),
        m.next + cmds.len() <= u64::MAX,
        forall|i: int, j: int|
            0 <= i < j < cmds.len() ==> #[trigger] cmds[i].target_spec()
                != #[trigger] cmds[j].target_spec(),
    ensures
        run(cancel_flags(m, cmds), cmds).len() <= cmds.len(),
        forall|i: int|
            0 <= i < run(cancel_flags(m, cmds), cmds).len() ==> #[trigger] run(
                cancel_flags(m, cmds),
                cmds,
            )[i] == dispatch_spec(false, cmds[i]),
{
    let ts = targets_of(cmds);
    law_superseded_by_later(m, ts);
    let flags = cancel_flags(m, cmds);
    lemma_run_aligned(flags, cmds);
    assert forall|i: int| 0 <= i < cmds.len() implies !#[trigger] flags[i] by {
        assert(ts[i] == cmds[i].target_spec());
        if exists|j: int| i < j < ts.len() && ts[j] == ts[i] {
            let j = choose|j: int| i < j < ts.len() && ts[j] == ts[i];
            assert(cmds[j].target_spec() == ts[j]);
        }
    }
}

proof fn lemma_pair_flags(m: RegistryModel, a: Command, b: Command)
    requires
        m.wf(),
        m.next + 2 <= u64::MAX,
        a.target_spec() == b.target_spec(),
    ensures
        cancel_flags(m, seq![a, b]) == seq![true, false],
{
    let cmds = seq![a, b];
    let t = a.target_spec();
    let ts = targets_of(cmds);
    assert(ts =~= seq![t, t]);
    law_superseded_by_later(m, seq![t, t]);
    let after = issue_all(m, seq![t, t]);
    assert(after.cancelled(t, m.next)) by {
        assert(seq![t, t][0] == t && seq![t, t][1] == t);
    }
    assert(!after.cancelled(t, (m.next + 1) as u64)) by {
        assert(seq![t, t][1] == t);
    }
    assert(cancel_flags(m, cmds) =~= seq![true, false]);
}

proof fn lemma_pair_run(a: Command, b: Command)
    requires
        b.is_device_call(),
    ensures
        run(seq![true, false], seq![a, b]) == seq![Dispatch::Skip, Dispatch::Device(b)],
{
    let flags = seq![true, false];
    let cmds = seq![a, b];
    lemma_run_aligned(flags, cmds);
    let r = run(flags, cmds);
    assert(r[0] == Dispatch::Skip);
    assert(r.len() == 2);
    assert(r[1] == Dispatch::Device(b));
    assert(r =~= seq![Dispatch::Skip, Dispatch::Device(b)]);
}

/// Two commands for one target issued back to back: the first is skipped
/// and its caller sees success, and only the second reaches the device.
pub proof fn law_debounce(m: RegistryModel, a: Command, b: Command, outcome: Result<(), String>)
    requires
        m.wf(),
        m.next + 2 <= u64::MAX,
        a.target_spec() == b.target_spec(),
        b.is_device_call(),
    ensures
        run(cancel_flags(m, seq![a, b]), seq![a, b]) == seq![Dispatch::Skip, Dispatch::Device(b)],
        resolved(reply_of(Dispatch::Skip, outcome)) == Ok::<(), String>(()),
{
    lemma_pair_flags(m, a, b);
    lemma_pair_run(a, b);
}

/// Once a live stop is taken off the queue nothing after it is run or
/// answered, and the caller of the stop sees success.
pub proof fn law_stop_drains(flags: Seq<bool>, cmds: Seq<Command>, e: int, outcome: Result<(), String>)
    requires
        flags.len() == cmds.len(),
        0 <= e < cmds.len(),
        cmds[e] == Command::Exit,
        !flags[e],
        forall|k: int| 0 <= k < e ==> !(#[trigger] cmds[k] == Command::Exit && !flags[k]),
    ensures
        run(flags, cmds).len() == e + 1,
        run(flags, cmds)[e] == Dispatch::Stop,
        resolved(reply_of(Dispatch::Stop, outcome)) == Ok::<(), String>(()),
{
    lemma_run_aligned(flags, cmds);
    let r = run(flags, cmds);
    if r.len() <= e {
        let l = r.len() - 1;
        assert(r[l] == dispatch_spec(flags[l], cmds[l]));
        assert(!(cmds[l] == Command::Exit && !flags[l]));
    }
    assert(r[e] == Dispatch::Stop);
    if r.len() > e + 1 {
        assert(r[e] != Dispatch::Stop);
    }
}

/// A finite poll rate makes the loop sleep that long and diff each pass;
/// clearing it makes the loop sleep the idle period and diff nothing.
pub proof fn law_poll_rate(rate: Option<u64>, new_rate: Option<u64>)
    ensures
        poll_plan_spec(rate_after(false, Command::MatrixGetRate { rate: new_rate }, rate))
            == match new_rate {
            Some(d) => PollPlan { delay_ms: d, diff: true },
            None => PollPlan { delay_ms: IDLE_POLL_MS, diff: false },
        },
{
}

} // verus!
