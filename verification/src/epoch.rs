//! Epochs: the commit boundaries on which all the sources of a dataflow
//! agree, and which every node passes on once.

use vstd::prelude::*;
use crate::errors::ExecutionError;
use crate::ingestion::OpIdentifier;
use crate::types::str_eq;

verus! {

/// The name of a node of the dataflow.
#[derive(Debug, PartialEq, Eq, Hash)]
pub struct NodeHandle {
    pub ns: Option<u16>,
    pub id: String,
}

impl Clone for NodeHandle {
    fn clone(&self) -> (r: Self)
        ensures
            r == *self,
    {
        NodeHandle { ns: self.ns, id: self.id.clone() }
    }
}

impl NodeHandle {
    pub fn new(ns: Option<u16>, id: String) -> (r: Self)
        ensures
            r.ns == ns,
            r.id == id,
    {
        Self { ns, id }
    }

    /// Both handles name the same node.
    pub open spec fn names(&self, other: &NodeHandle) -> bool {
        self.ns == other.ns && self.id@ == other.id@
    }

    /// Tells whether both handles name the same node.
    pub fn same(&self, other: &NodeHandle) -> (r: bool)
        ensures
            r == self.names(other),
    {
        let ns = match (self.ns, other.ns) {
            (Some(a), Some(b)) => a == b,
            (None, None) => true,
            _ => false,
        };
        ns && str_eq(self.id.as_str(), other.id.as_str())
    }
}

/// For each source the last of its messages that an epoch covers.
pub type SourceStates = Vec<(NodeHandle, OpIdentifier)>;

/// A commit boundary: its number, and how far it reaches in each source.
#[derive(Debug, PartialEq, Eq)]
pub struct Epoch {
    pub id: u64,
    pub details: SourceStates,
}

/// The position of the source `node` in the states, and their number where
/// it is not among them.
pub open spec fn position_of_source(states: Seq<(NodeHandle, OpIdentifier)>, node: NodeHandle) -> int
    decreases states.len(),
{
    if states.len() == 0 {
        0
    } else if states.first().0.names(&node) {
        0
    } else {
        1 + position_of_source(states.drop_first(), node)
    }
}

/// The states with `op` as the state of the source `node`.
pub open spec fn with_state(
    states: Seq<(NodeHandle, OpIdentifier)>,
    node: NodeHandle,
    op: OpIdentifier,
) -> Seq<(NodeHandle, OpIdentifier)> {
    let p = position_of_source(states, node);
    if p < states.len() {
        states.update(p, (node, op))
    } else {
        states.push((node, op))
    }
}

/// The states `into` with every state of `from`, in turn.
pub open spec fn merged(
    into: Seq<(NodeHandle, OpIdentifier)>,
    from: Seq<(NodeHandle, OpIdentifier)>,
) -> Seq<(NodeHandle, OpIdentifier)>
    decreases from.len(),
{
    if from.len() == 0 {
        into
    } else {
        with_state(merged(into, from.drop_last()), from.last().0, from.last().1)
    }
}

/// The state of the source `node`, if the states hold one.
pub open spec fn state_of(states: Seq<(NodeHandle, OpIdentifier)>, node: NodeHandle) -> Option<
    OpIdentifier,
> {
    let p = position_of_source(states, node);
    if p < states.len() {
        Some(states[p].1)
    } else {
        None
    }
}

/// The position of a source is that of the first state of its name.
pub proof fn lemma_position_of_source(
    states: Seq<(NodeHandle, OpIdentifier)>,
    node: NodeHandle,
    p: int,
)
    requires
        0 <= p <= states.len(),
        forall|j: int| 0 <= j < p ==> !(#[trigger] states[j]).0.names(&node),
        p < states.len() ==> states[p].0.names(&node),
    ensures
        position_of_source(states, node) == p,
    decreases states.len(),
{
    if states.len() > 0 && p > 0 {
        assert(!states[0].0.names(&node));
        let rest = states.drop_first();
        assert forall|j: int| 0 <= j < p - 1 implies !(#[trigger] rest[j]).0.names(&node) by {
            assert(rest[j] == states[j + 1]);
        }
        lemma_position_of_source(rest, node, p - 1);
    }
}

/// Puts `op` as the state of the source `node`.
pub fn put_state(states: &mut Vec<(NodeHandle, OpIdentifier)>, node: &NodeHandle, op: OpIdentifier)
    ensures
        final(states)@ == with_state(old(states)@, *node, op),
{
    let mut p: usize = 0;
    while p < states.len() && !states[p].0.same(node)
        invariant
            p <= states@.len(),
            states@ == old(states)@,
            forall|j: int| 0 <= j < p ==> !(#[trigger] states@[j]).0.names(node),
        decreases states@.len() - p,
    {
        p += 1;
    }
    proof {
        lemma_position_of_source(states@, *node, p as int);
    }
    if p < states.len() {
        states.set(p, (node.clone(), op));
    } else {
        states.push((node.clone(), op));
    }
}

/// The state of the source `node`, if the states hold one.
pub fn get_state(states: &Vec<(NodeHandle, OpIdentifier)>, node: &NodeHandle) -> (r: Option<
    OpIdentifier,
>)
    ensures
        r == state_of(states@, *node),
{
    let mut p: usize = 0;
    while p < states.len() && !states[p].0.same(node)
        invariant
            p <= states@.len(),
            forall|j: int| 0 <= j < p ==> !(#[trigger] states@[j]).0.names(node),
        decreases states@.len() - p,
    {
        p += 1;
    }
    proof {
        lemma_position_of_source(states@, *node, p as int);
    }
    if p < states.len() {
        Some(states[p].1)
    } else {
        None
    }
}

/// Puts every state of `from` into `into`, in turn.
pub fn merge_states(into: &mut Vec<(NodeHandle, OpIdentifier)>, from: &Vec<(NodeHandle, OpIdentifier)>)
    ensures
        final(into)@ == merged(old(into)@, from@),
{
    let mut i: usize = 0;
    while i < from.len()
        invariant
            i <= from@.len(),
            into@ == merged(old(into)@, from@.subrange(0, i as int)),
        decreases from@.len() - i,
    {
        proof {
            let next = from@.subrange(0, i + 1);
            assert(next.drop_last() =~= from@.subrange(0, i as int));
            assert(next.last() == from@[i as int]);
        }
        put_state(into, &from[i].0, from[i].1);
        i += 1;
    }
    assert(from@.subrange(0, i as int) =~= from@);
}

impl Clone for Epoch {
    fn clone(&self) -> (r: Self)
        ensures
            r.id == self.id,
            r.details@ == self.details@,
    {
        let mut details: Vec<(NodeHandle, OpIdentifier)> = Vec::new();
        let mut i: usize = 0;
        while i < self.details.len()
            invariant
                i <= self.details@.len(),
                details@ == self.details@.subrange(0, i as int),
            decreases self.details@.len() - i,
        {
            details.push((self.details[i].0.clone(), self.details[i].1));
            i += 1;
            assert(details@ =~= self.details@.subrange(0, i as int));
        }
        assert(self.details@.subrange(0, i as int) =~= self.details@);
        Epoch { id: self.id, details }
    }
}

impl Epoch {
    pub fn new(id: u64, details: SourceStates) -> (r: Self)
        ensures
            r.id == id,
            r.details == details,
    {
        Self { id, details }
    }

    /// The epoch `id` as one source sees it: it reaches to the message
    /// `(txid, seq_in_tx)` of that source.
    pub fn from(id: u64, node_handle: NodeHandle, txid: u64, seq_in_tx: u64) -> (r: Self)
        ensures
            r.id == id,
            r.details@ == seq![(node_handle, OpIdentifier { txid, seq_in_tx })],
    {
        let mut details: Vec<(NodeHandle, OpIdentifier)> = Vec::new();
        details.push((node_handle, OpIdentifier::new(txid, seq_in_tx)));
        assert(details@ =~= seq![(node_handle, OpIdentifier { txid, seq_in_tx })]);
        Self { id, details }
    }
}

/// What closing an epoch decides: whether the dataflow ends, the number of
/// the epoch that is committed, if one is, and the instant of the decision,
/// which is the same for every source.
#[derive(Clone, Copy, Debug, PartialEq, Eq, Structural)]
pub struct EpochDecision {
    pub terminating: bool,
    pub epoch: Option<u64>,
    pub instant: u64,
}

/// Every source of the round asked to end.
pub open spec fn all_terminate(votes: Seq<(bool, bool)>) -> bool {
    forall|i: int| 0 <= i < votes.len() ==> (#[trigger] votes[i]).0
}

/// A source of the round had operations that are not committed.
pub open spec fn any_uncommitted(votes: Seq<(bool, bool)>) -> bool {
    exists|i: int| 0 <= i < votes.len() && (#[trigger] votes[i]).1
}

/// What a round with the given votes decides. Each vote tells whether the
/// source asks to end and whether it has operations that are not committed.
pub open spec fn decision_of(votes: Seq<(bool, bool)>, next_epoch_id: u64, instant: u64) -> EpochDecision {
    if all_terminate(votes) {
        EpochDecision { terminating: true, epoch: None, instant }
    } else if any_uncommitted(votes) {
        EpochDecision { terminating: false, epoch: Some(next_epoch_id), instant }
    } else {
        EpochDecision { terminating: false, epoch: None, instant }
    }
}

/// The barrier of the sources: it gathers one vote from each and decides
/// when the last has voted.
pub struct EpochManager {
    num_participants: usize,
    voted: usize,
    every_one_terminates: bool,
    some_one_uncommitted: bool,
    next_epoch_id: u64,
    votes: Ghost<Seq<(bool, bool)>>,
}

impl EpochManager {
    /// The number of sources.
    pub closed spec fn participants(&self) -> nat {
        self.num_participants as nat
    }

    /// The votes of the round that is open.
    pub closed spec fn round(&self) -> Seq<(bool, bool)> {
        self.votes@
    }

    /// The number of the next epoch.
    pub closed spec fn next_id(&self) -> u64 {
        self.next_epoch_id
    }

    /// The invariant of the manager.
    pub closed spec fn wf(&self) -> bool {
        &&& self.num_participants > 0
        &&& self.voted < self.num_participants
        &&& self.voted == self.votes@.len()
        &&& self.every_one_terminates == all_terminate(self.votes@)
        &&& self.some_one_uncommitted == any_uncommitted(self.votes@)
    }

    /// A manager for the given number of sources, of which there is at
    /// least one. The first epoch has the number 0.
    pub fn new(num_participants: usize) -> (r: Self)
        requires
            num_participants > 0,
        ensures
            r.wf(),
            r.participants() == num_participants,
            r.round() == Seq::<(bool, bool)>::empty(),
            r.next_id() == 0,
    {
        Self {
            num_participants,
            voted: 0,
            every_one_terminates: true,
            some_one_uncommitted: false,
            next_epoch_id: 0,
            votes: Ghost(Seq::empty()),
        }
    }

    /// The number of the next epoch.
    pub fn next_epoch_id(&self) -> (r: u64)
        ensures
            r == self.next_id(),
    {
        self.next_epoch_id
    }

    /// Takes the vote of one source. The vote of the last source of a
    /// round closes it: the decision is returned, which is that of every
    /// source of the round, and the next round is open. An epoch gets the
    /// next number, so the numbers of the epochs ascend.
    pub fn wait_for_epoch_close(
        &mut self,
        request_termination: bool,
        has_uncommitted: bool,
        now: u64,
    ) -> (r: Option<EpochDecision>)
        requires
            old(self).wf(),
            old(self).next_id() < u64::MAX,
        ensures
            final(self).wf(),
            final(self).participants() == old(self).participants(),
            old(self).round().len() + 1 < old(self).participants() ==> r.is_none()
                && final(self).round() == old(self).round().push((request_termination, has_uncommitted))
                && final(self).next_id() == old(self).next_id(),
            old(self).round().len() + 1 == old(self).participants() ==> r == Some(
                decision_of(
                    old(self).round().push((request_termination, has_uncommitted)),
                    old(self).next_id(),
                    now,
                ),
            ) && final(self).round() == Seq::<(bool, bool)>::empty() && final(self).next_id()
                == (if r.unwrap().epoch.is_some() {
                (old(self).next_id() + 1) as u64
            } else {
                old(self).next_id()
            }),
            final(self).next_id() >= old(self).next_id(),
            r matches Some(d) ==> (d.epoch matches Some(e) ==> e == old(self).next_id() && e
                < final(self).next_id()),
    {
        let ghost before = self.votes@;
        let ghost votes = before.push((request_termination, has_uncommitted));
        let all = self.every_one_terminates && request_termination;
        let any = self.some_one_uncommitted || has_uncommitted;
        proof {
            assert(all == all_terminate(votes)) by {
                if all_terminate(votes) {
                    assert(votes[before.len() as int].0);
                    assert forall|i: int| 0 <= i < before.len()
                        implies (#[trigger] before[i]).0 by {
                        assert(votes[i] == before[i]);
                    }
                }
                if all {
                    assert forall|i: int| 0 <= i < votes.len() implies (#[trigger] votes[i]).0 by {
                        if i < before.len() {
                            assert(votes[i] == before[i]);
                        }
                    }
                }
            }
            assert(any == any_uncommitted(votes)) by {
                if any_uncommitted(votes) {
                    let i = choose|i: int| 0 <= i < votes.len() && (#[trigger] votes[i]).1;
                    if i < before.len() {
                        assert(before[i] == votes[i]);
                    }
                }
                if self.some_one_uncommitted {
                    let i = choose|i: int| 0 <= i < before.len() && (#[trigger] before[i]).1;
                    assert(votes[i] == before[i]);
                }
                if has_uncommitted {
                    assert(votes[before.len() as int].1);
                }
            }
        }
        if self.voted + 1 < self.num_participants {
            self.voted = self.voted + 1;
            self.every_one_terminates = all;
            self.some_one_uncommitted = any;
            self.votes = Ghost(votes);
            return None;
        }
        self.voted = 0;
        self.every_one_terminates = true;
        self.some_one_uncommitted = false;
        self.votes = Ghost(Seq::empty());
        let decision = if all {
            EpochDecision { terminating: true, epoch: None, instant: now }
        } else if any {
            let id = self.next_epoch_id;
            self.next_epoch_id = id + 1;
            EpochDecision { terminating: false, epoch: Some(id), instant: now }
        } else {
            EpochDecision { terminating: false, epoch: None, instant: now }
        };
        Some(decision)
    }
}

/// The barrier of a node with several inputs: it takes the commit of an
/// epoch from each input and passes the epoch on once, when the last of
/// them has come.
#[derive(Debug)]
pub struct EpochBarrier {
    pub ports: Vec<u16>,
    /// For each input, whether its commit of the open epoch has come.
    pub received: Vec<bool>,
    /// The number of the open epoch, if a commit of it has come.
    pub open_epoch: Option<u64>,
    /// The states of the sources of the commits that have come.
    pub details: SourceStates,
    /// The number of the last epoch that was passed on.
    pub last_emitted: Option<u64>,
}

/// Why the barrier refuses the commit of an epoch on a port, if it does.
pub open spec fn barrier_error(barrier: EpochBarrier, port: u16, epoch_id: u64) -> Option<
    ExecutionError,
> {
    let p = barrier.ports@.index_of(port);
    if !barrier.ports@.contains(port) {
        Some(ExecutionError::InvalidPortHandle(port))
    } else if barrier.received@[p] {
        Some(ExecutionError::InvalidOperation)
    } else if barrier.open_epoch matches Some(open) && open != epoch_id {
        Some(ExecutionError::InvalidOperation)
    } else if barrier.last_emitted matches Some(last) && epoch_id <= last {
        Some(ExecutionError::InvalidOperation)
    } else {
        None
    }
}

/// An epoch that was passed on is not passed on again: the commit of an
/// epoch that is not after the last one passed on is refused, on every port.
pub proof fn lemma_epoch_passed_on_once(barrier: EpochBarrier, port: u16, epoch_id: u64)
    requires
        barrier.last_emitted matches Some(last) && epoch_id <= last,
    ensures
        barrier_error(barrier, port, epoch_id).is_some(),
{
}

impl EpochBarrier {
    /// The invariant of the barrier.
    pub open spec fn wf(&self) -> bool {
        &&& self.ports@.len() == self.received@.len()
        &&& self.ports@.no_duplicates()
        &&& exists|i: int| 0 <= i < self.received@.len() && !(#[trigger] self.received@[i])
        &&& self.open_epoch.is_none() ==> forall|i: int|
            0 <= i < self.received@.len() ==> !(#[trigger] self.received@[i])
        &&& self.open_epoch.is_none() ==> self.details@.len() == 0
    }

    /// A barrier for the given inputs, which are at least one and all
    /// different; `None` for other inputs.
    pub fn new(ports: Vec<u16>) -> (r: Option<Self>)
        ensures
            r.is_some() == (ports@.len() > 0 && ports@.no_duplicates()),
            r matches Some(b) ==> b.wf() && b.ports == ports && b.open_epoch.is_none()
                && b.last_emitted.is_none(),
    {
        if ports.len() == 0 {
            return None;
        }
        let mut i: usize = 0;
        while i < ports.len()
            invariant
                i <= ports@.len(),
                forall|a: int, b: int| 0 <= a < b < i ==> ports@[a] != ports@[b],
            decreases ports@.len() - i,
        {
            let mut k: usize = 0;
            while k < i
                invariant
                    k <= i < ports@.len(),
                    forall|a: int| 0 <= a < k ==> ports@[a] != ports@[i as int],
                decreases i - k,
            {
                if ports[k] == ports[i] {
                    return None;
                }
                k += 1;
            }
            i += 1;
        }
        let mut received: Vec<bool> = Vec::new();
        let mut n: usize = 0;
        while n < ports.len()
            invariant
                n <= ports@.len(),
                received@.len() == n,
                forall|j: int| 0 <= j < n ==> !(#[trigger] received@[j]),
            decreases ports@.len() - n,
        {
            received.push(false);
            n += 1;
        }
        assert(!received@[0]);
        Some(
            EpochBarrier {
                ports,
                received,
                open_epoch: None,
                details: Vec::new(),
                last_emitted: None,
            },
        )
    }

    /// Takes the commit of an epoch that has come on a port.
    ///
    /// A port that the barrier lacks, a second commit on a port within one
    /// epoch, a commit of another epoch than the open one, and a commit of
    /// an epoch that is not after the last one passed on are refused, and
    /// the barrier is left as it was. The commit that completes the epoch
    /// passes it on, with the states of the sources of all its commits,
    /// and the barrier is ready for a later epoch.
    #[verifier::loop_isolation(false)]
    pub fn on_commit(&mut self, port: u16, epoch: &Epoch) -> (r: Result<
        Option<Epoch>,
        ExecutionError,
    >)
        requires
            old(self).wf(),
        ensures
            final(self).wf(),
            final(self).ports == old(self).ports,
            match barrier_error(*old(self), port, epoch.id) {
                Some(e) => r == Err::<Option<Epoch>, ExecutionError>(e)
                    && *final(self) == *old(self),
                None => {
                    let p = old(self).ports@.index_of(port);
                    let marked = old(self).received@.update(p, true);
                    let complete = forall|i: int|
                        0 <= i < marked.len() ==> #[trigger] marked[i];
                    if complete {
                        &&& r matches Ok(Some(out))
                        &&& out.id == epoch.id
                        &&& out.details@ == merged(old(self).details@, epoch.details@)
                        &&& final(self).open_epoch.is_none()
                        &&& final(self).last_emitted == Some(epoch.id)
                    } else {
                        &&& r == Ok::<Option<Epoch>, ExecutionError>(None)
                        &&& final(self).received@ == marked
                        &&& final(self).open_epoch == Some(epoch.id)
                        &&& final(self).details@ == merged(old(self).details@, epoch.details@)
                        &&& final(self).last_emitted == old(self).last_emitted
                    }
                },
            },
    {
        let mut p: usize = 0;
        while p < self.ports.len() && self.ports[p] != port
            invariant
                p <= self.ports@.len(),
                *self == *old(self),
                forall|j: int| 0 <= j < p ==> self.ports@[j] != port,
            decreases self.ports@.len() - p,
        {
            p += 1;
        }
        if p >= self.ports.len() {
            return Err(ExecutionError::InvalidPortHandle(port));
        }
        proof {
            assert(self.ports@.contains(port));
            let q = self.ports@.index_of(port);
            assert(self.ports@[q] == port);
            assert(q == p);
        }
        if self.received[p] {
            return Err(ExecutionError::InvalidOperation);
        }
        match self.open_epoch {
            Some(open) => {
                if open != epoch.id {
                    return Err(ExecutionError::InvalidOperation);
                }
            },
            None => {},
        }
        match self.last_emitted {
            Some(last) => {
                if epoch.id <= last {
                    return Err(ExecutionError::InvalidOperation);
                }
            },
            None => {},
        }
        self.received.set(p, true);
        self.open_epoch = Some(epoch.id);
        merge_states(&mut self.details, &epoch.details);
        let mut complete = true;
        let mut i: usize = 0;
        while i < self.received.len()
            invariant
                i <= self.received@.len(),
                complete == forall|j: int| 0 <= j < i ==> #[trigger] self.received@[j],
                self.ports == old(self).ports,
                self.received@ == old(self).received@.update(p as int, true),
                self.open_epoch == Some(epoch.id),
                self.last_emitted == old(self).last_emitted,
                self.details@ == merged(old(self).details@, epoch.details@),
            decreases self.received@.len() - i,
        {
            if !self.received[i] {
                complete = false;
            }
            i += 1;
        }
        if !complete {
            return Ok(None);
        }
        let mut details: Vec<(NodeHandle, OpIdentifier)> = Vec::new();
        std::mem::swap(&mut details, &mut self.details);
        let mut k: usize = 0;
        while k < self.received.len()
            invariant
                k <= self.received@.len(),
                self.received@.len() == old(self).received@.len(),
                forall|j: int| 0 <= j < k ==> !(#[trigger] self.received@[j]),
                self.ports == old(self).ports,
                self.details@.len() == 0,
            decreases self.received@.len() - k,
        {
            self.received.set(k, false);
            k += 1;
        }
        self.open_epoch = None;
        self.last_emitted = Some(epoch.id);
        assert(!self.received@[0]);
        Ok(Some(Epoch { id: epoch.id, details }))
    }
}

} // verus!
