//! The per-tick decisions of one cycler instance. The thread that owns the
//! instance waits for its trigger, asks which node to run next, runs it and
//! reports the outcome, and publishes the tick's outputs at the end.
use vstd::prelude::*;

verus! {

/// Where a cycler instance is within its tick.
#[derive(Clone, Copy, Debug, PartialEq, Eq, Structural)]
pub enum TickPhase {
    Idle,
    Ticking,
    Publishing,
}

/// What the owning thread has to do next.
#[derive(Clone, Copy, Debug, PartialEq, Eq, Structural)]
pub enum NodeAction {
    /// Wait for the next trigger, then start a tick.
    AwaitTrigger,
    /// Run the node with this index and report its outcome.
    Run { node: usize },
    /// Do not run the node: an output it requires is absent this tick.
    Skip { node: usize },
    /// Commit this tick's outputs.
    Publish,
}

/// The mathematical content of a [`CyclerSchedule`].
pub struct ScheduleView<T> {
    /// For each node, the earlier nodes whose main output it requires.
    pub required: Seq<Seq<usize>>,
    pub phase: TickPhase,
    /// The outputs of this tick so far, one per node already handled.
    pub current: Seq<Option<T>>,
    /// The outputs of the last published tick, one per node.
    pub published: Seq<Option<T>>,
}

/// Every node requires only outputs of nodes before it.
pub open spec fn requires_only_earlier(required: Seq<Seq<usize>>) -> bool {
    forall|i: int, j: int|
        0 <= i < required.len() && 0 <= j < required[i].len() ==> #[trigger] required[i][j] < i
}

impl<T> ScheduleView<T> {
    /// The number of nodes.
    pub open spec fn node_count(self) -> nat {
        self.required.len()
    }

    pub open spec fn wf(self) -> bool {
        &&& requires_only_earlier(self.required)
        &&& self.published.len() == self.node_count()
        &&& match self.phase {
            TickPhase::Idle => self.current.len() == 0,
            TickPhase::Ticking => self.current.len() < self.node_count(),
            TickPhase::Publishing => self.current.len() == self.node_count(),
        }
    }

    /// Every output that node `i` requires is present this tick.
    pub open spec fn is_ready(self, i: int) -> bool {
        forall|j: int|
            0 <= j < self.required[i].len() ==> (#[trigger] self.current[(
            self.required[i][j] as int)]) is Some
    }

    /// What the owning thread has to do next.
    pub open spec fn action(self) -> NodeAction {
        match self.phase {
            TickPhase::Idle => NodeAction::AwaitTrigger,
            TickPhase::Publishing => NodeAction::Publish,
            TickPhase::Ticking => if self.is_ready(self.current.len() as int) {
                NodeAction::Run { node: self.current.len() as usize }
            } else {
                NodeAction::Skip { node: self.current.len() as usize }
            },
        }
    }

    /// The state after a trigger started a tick.
    pub open spec fn started(self) -> ScheduleView<T> {
        ScheduleView {
            phase: if self.node_count() == 0 {
                TickPhase::Publishing
            } else {
                TickPhase::Ticking
            },
            current: Seq::empty(),
            ..self
        }
    }

    /// The state after the next node was handled with `outcome` (`None` for
    /// a failure). A skipped node's output is absent whatever is reported.
    pub open spec fn finished(self, outcome: Option<T>) -> ScheduleView<T> {
        let i = self.current.len() as int;
        let output = if self.is_ready(i) {
            outcome
        } else {
            None
        };
        ScheduleView {
            phase: if i + 1 == self.node_count() {
                TickPhase::Publishing
            } else {
                TickPhase::Ticking
            },
            current: self.current.push(output),
            ..self
        }
    }

    /// The state after this tick's outputs were committed.
    pub open spec fn published_tick(self) -> ScheduleView<T> {
        ScheduleView {
            phase: TickPhase::Idle,
            current: Seq::empty(),
            published: self.current,
            ..self
        }
    }
}

/// The tick state of one cycler instance.
pub struct CyclerSchedule<T> {
    required: Vec<Vec<usize>>,
    phase: TickPhase,
    current: Vec<Option<T>>,
    published: Vec<Option<T>>,
}

impl<T> View for CyclerSchedule<T> {
    type V = ScheduleView<T>;

    closed spec fn view(&self) -> ScheduleView<T> {
        ScheduleView {
            required: self.required@.map_values(|r: Vec<usize>| r@),
            phase: self.phase,
            current: self.current@,
            published: self.published@,
        }
    }
}

/// No output of any node.
pub open spec fn all_absent<T>(n: nat) -> Seq<Option<T>> {
    Seq::new(n, |i: int| None)
}

impl<T> CyclerSchedule<T> {
    /// An idle instance whose node `i` requires the outputs of the nodes
    /// listed in `required[i]`, all earlier than `i`. Nothing is published
    /// yet.
    pub fn new(required: Vec<Vec<usize>>) -> (r: Self)
        requires
            requires_only_earlier(required@.map_values(|r: Vec<usize>| r@)),
        ensures
            r@.wf(),
            r@.required == required@.map_values(|r: Vec<usize>| r@),
            r@.phase == TickPhase::Idle,
            r@.published == all_absent::<T>(required@.len()),
    {
        let mut published: Vec<Option<T>> = Vec::new();
        let mut i: usize = 0;
        while i < required.len()
            invariant
                i <= required@.len(),
                published@ =~= all_absent::<T>(i as nat),
            decreases required@.len() - i,
        {
            published.push(None);
            i = i + 1;
        }
        CyclerSchedule { required, phase: TickPhase::Idle, current: Vec::new(), published }
    }

    /// Where the instance is within its tick.
    pub fn phase(&self) -> (r: TickPhase)
        ensures
            r == self@.phase,
    {
        self.phase
    }

    /// The outputs of the last published tick.
    pub fn published(&self) -> (r: &Vec<Option<T>>)
        ensures
            r@ == self@.published,
    {
        &self.published
    }

    /// The outputs of this tick so far.
    pub fn current(&self) -> (r: &Vec<Option<T>>)
        ensures
            r@ == self@.current,
    {
        &self.current
    }

    /// Whether every output that node `i` requires is present this tick.
    fn node_is_ready(&self, i: usize) -> (r: bool)
        requires
            self@.wf(),
            i < self@.node_count(),
            i <= self@.current.len(),
        ensures
            r == self@.is_ready(i as int),
    {
        let deps = &self.required[i];
        assert(self@.required[i as int] == deps@);
        let mut j: usize = 0;
        while j < deps.len()
            invariant
                self@.wf(),
                i < self@.node_count(),
                i <= self@.current.len(),
                deps@ == self@.required[i as int],
                j <= deps@.len(),
                forall|k: int| 0 <= k < j ==> (#[trigger] self@.current[(deps@[k] as int)]) is Some,
            decreases deps@.len() - j,
        {
            assert(deps@[j as int] < i);
            if self.current[deps[j]].is_none() {
                return false;
            }
            j = j + 1;
        }
        true
    }

    /// What the owning thread has to do next.
    pub fn next_action(&self) -> (r: NodeAction)
        requires
            self@.wf(),
        ensures
            r == self@.action(),
    {
        match self.phase {
            TickPhase::Idle => NodeAction::AwaitTrigger,
            TickPhase::Publishing => NodeAction::Publish,
            TickPhase::Ticking => {
                let i = self.current.len();
                if self.node_is_ready(i) {
                    NodeAction::Run { node: i }
                } else {
                    NodeAction::Skip { node: i }
                }
            },
        }
    }

    /// Starts a tick on a trigger.
    pub fn start_tick(&mut self)
        requires
            old(self)@.wf(),
            old(self)@.phase == TickPhase::Idle,
        ensures
            final(self)@ == old(self)@.started(),
            final(self)@.wf(),
    {
        self.current = Vec::new();
        if self.required.len() == 0 {
            self.phase = TickPhase::Publishing;
        } else {
            self.phase = TickPhase::Ticking;
        }
        assert(self@.current =~= Seq::<Option<T>>::empty());
    }

    /// Records how the next node ended: its output, or `None` when it
    /// failed or was skipped.
    pub fn finish_node(&mut self, outcome: Option<T>)
        requires
            old(self)@.wf(),
            old(self)@.phase == TickPhase::Ticking,
        ensures
            final(self)@ == old(self)@.finished(outcome),
            final(self)@.wf(),
    {
        let i = self.current.len();
        let output = if self.node_is_ready(i) {
            outcome
        } else {
            None
        };
        self.current.push(output);
        if self.current.len() == self.required.len() {
            self.phase = TickPhase::Publishing;
        }
    }

    /// Commits this tick's outputs and returns to waiting for a trigger.
    pub fn publish(&mut self)
        requires
            old(self)@.wf(),
            old(self)@.phase == TickPhase::Publishing,
        ensures
            final(self)@ == old(self)@.published_tick(),
            final(self)@.wf(),
    {
        core::mem::swap(&mut self.current, &mut self.published);
        self.current = Vec::new();
        self.phase = TickPhase::Idle;
        assert(self@.current =~= Seq::<Option<T>>::empty());
    }
}


/// A node that fails leaves its output of this tick absent; every later
/// node that requires that output is skipped and its own output is absent
/// too; the failure never stops the instance: once the tick is published
/// the instance is idle again and its next trigger starts the next tick.
pub proof fn lemma_failed_node_is_contained<T>(s: ScheduleView<T>)
    requires
        s.wf(),
        s.phase == TickPhase::Ticking,
    ensures
        ({
            let i = s.current.len() as int;
            let t = s.finished(None);
            &&& t.wf()
            &&& t.current[i] is None
            &&& t.current.take(i) == s.current
            &&& forall|u: ScheduleView<T>, k: int|
                u.wf() && u.phase == TickPhase::Ticking && u.required == s.required && i
                    < u.current.len() && u.current[i] is None && 0 <= k < u.required[u.current.len() as int].len()
                    && #[trigger] u.required[u.current.len() as int][k] == i ==> u.action()
                    == NodeAction::Skip { node: u.current.len() as usize } && forall|o: Option<T>|
                    (#[trigger] u.finished(o)).current[u.current.len() as int] is None
            &&& forall|u: ScheduleView<T>|
                u.wf() && u.phase == TickPhase::Publishing && u.current.len() > i && u.current[i] is None
                    ==> {
                    let p = #[trigger] u.published_tick();
                    &&& p.published[i] is None
                    &&& p.phase == TickPhase::Idle
                    &&& p.wf()
                    &&& p.started().wf()
                    &&& p.started().phase != TickPhase::Idle
                }
        }),
{
    let i = s.current.len() as int;
    assert(s.finished(None).current.take(i) =~= s.current);
    assert forall|u: ScheduleView<T>, k: int|
        u.wf() && u.phase == TickPhase::Ticking && u.required == s.required && i < u.current.len()
            && u.current[i] is None && 0 <= k < u.required[u.current.len() as int].len()
            && #[trigger] u.required[u.current.len() as int][k] == i implies u.action()
        == NodeAction::Skip { node: u.current.len() as usize } && forall|o: Option<T>|
        (#[trigger] u.finished(o)).current[u.current.len() as int] is None by {
        let n = u.current.len() as int;
        assert(u.current[(u.required[n][k] as int)] is None);
        assert(!u.is_ready(n));
    }
}

} // verus!
