//! What a node sends on its output ports, and when a source asks for a
//! commit. Sending itself is done outside: the managers queue what is to be
//! sent, sender by sender.

use vstd::prelude::*;
use crate::epoch::{merge_states, merged, Epoch, EpochDecision, NodeHandle, SourceStates};
use crate::errors::{ExecutionError, PortHandle};
use crate::ingestion::{IngestionMessage, IngestionMessageKind, OpIdentifier};
use crate::record_store::{written, OperationView, RecordWriter};
use crate::types::Operation;

verus! {

/// What travels on the channel of an edge.
#[derive(Debug, PartialEq, Eq)]
pub enum ExecutorOperation {
    Op { op: Operation },
    Commit { epoch: Epoch },
    Terminate,
    SnapshottingDone,
}

/// What travels on the channel of an edge, as a mathematical value.
pub enum MessageView {
    Op(OperationView),
    Commit(u64, Seq<(NodeHandle, OpIdentifier)>),
    Terminate,
    SnapshottingDone,
}

impl View for ExecutorOperation {
    type V = MessageView;

    open spec fn view(&self) -> MessageView {
        match *self {
            ExecutorOperation::Op { op } => MessageView::Op(op@),
            ExecutorOperation::Commit { epoch } => MessageView::Commit(epoch.id, epoch.details@),
            ExecutorOperation::Terminate => MessageView::Terminate,
            ExecutorOperation::SnapshottingDone => MessageView::SnapshottingDone,
        }
    }
}

impl Clone for ExecutorOperation {
    fn clone(&self) -> (r: Self)
        ensures
            r@ == self@,
    {
        match self {
            ExecutorOperation::Op { op } => ExecutorOperation::Op { op: op.clone() },
            ExecutorOperation::Commit { epoch } => ExecutorOperation::Commit {
                epoch: epoch.clone(),
            },
            ExecutorOperation::Terminate => ExecutorOperation::Terminate,
            ExecutorOperation::SnapshottingDone => ExecutorOperation::SnapshottingDone,
        }
    }
}

/// A message that is to be sent: the port, the sender of that port, by its
/// position, and the message.
#[derive(Debug, PartialEq, Eq)]
pub struct Dispatch {
    pub port: PortHandle,
    pub sender: usize,
    pub message: ExecutorOperation,
}

/// A message that is to be sent, as a mathematical value.
pub struct DispatchView {
    pub port: PortHandle,
    pub sender: int,
    pub message: MessageView,
}

/// What each dispatch of a sequence holds.
pub open spec fn dispatch_views(s: Seq<Dispatch>) -> Seq<DispatchView> {
    s.map_values(
        |d: Dispatch| DispatchView { port: d.port, sender: d.sender as int, message: d.message@ },
    )
}

/// One message for each of the `n` senders of a port, in their order.
pub open spec fn fan_out(port: PortHandle, n: nat, message: MessageView) -> Seq<DispatchView> {
    Seq::new(n, |i: int| DispatchView { port, sender: i, message })
}

/// One message for each sender of each port, port by port.
pub open spec fn sent_to_all(senders: Seq<(PortHandle, usize)>, message: MessageView) -> Seq<
    DispatchView,
>
    decreases senders.len(),
{
    if senders.len() == 0 {
        Seq::<DispatchView>::empty()
    } else {
        sent_to_all(senders.drop_last(), message) + fan_out(
            senders.last().0,
            senders.last().1 as nat,
            message,
        )
    }
}

/// No port has two entries.
pub open spec fn distinct_ports(senders: Seq<(PortHandle, usize)>) -> bool {
    forall|a: int, b: int|
        0 <= a < b < senders.len() ==> (#[trigger] senders[a]).0 != (#[trigger] senders[b]).0
}

/// The dispatch goes to a sender of one of the ports.
pub open spec fn goes_to_a_sender(senders: Seq<(PortHandle, usize)>, dispatch: DispatchView) -> bool {
    exists|k: int|
        0 <= k < senders.len() && (#[trigger] senders[k]).0 == dispatch.port && 0
            <= dispatch.sender < senders[k].1
}

/// What is sent to all holds the message and nothing else, for senders of
/// the ports only, and for every sender of every port.
pub proof fn lemma_sent_to_all_reaches(senders: Seq<(PortHandle, usize)>, message: MessageView)
    ensures
        forall|q: int|
            0 <= q < sent_to_all(senders, message).len() ==> (#[trigger] sent_to_all(
                senders,
                message,
            )[q]).message == message && goes_to_a_sender(senders, sent_to_all(senders, message)[q]),
        forall|k: int, i: int|
            0 <= k < senders.len() && 0 <= i < senders[k].1 ==> sent_to_all(
                senders,
                message,
            ).contains(#[trigger] fan_out(senders[k].0, senders[k].1 as nat, message)[i]),
    decreases senders.len(),
{
    let all = sent_to_all(senders, message);
    if senders.len() > 0 {
        let head = senders.drop_last();
        let last = senders.last();
        let before = sent_to_all(head, message);
        let tail = fan_out(last.0, last.1 as nat, message);
        lemma_sent_to_all_reaches(head, message);
        assert(all == before + tail);
        assert forall|q: int| 0 <= q < all.len() implies (#[trigger] all[q]).message == message
            && goes_to_a_sender(senders, all[q]) by {
            if q < before.len() {
                assert(all[q] == before[q]);
                assert(goes_to_a_sender(head, before[q]));
                let k = choose|k: int|
                    0 <= k < head.len() && (#[trigger] head[k]).0 == before[q].port && 0
                        <= before[q].sender < head[k].1;
                assert(senders[k] == head[k]);
            } else {
                assert(all[q] == tail[q - before.len()]);
                assert(senders[senders.len() - 1] == last);
            }
        }
        assert forall|k: int, i: int| 0 <= k < senders.len() && 0 <= i < senders[k].1
            implies all.contains(
            #[trigger] fan_out(senders[k].0, senders[k].1 as nat, message)[i],
        ) by {
            let wanted = fan_out(senders[k].0, senders[k].1 as nat, message)[i];
            if k < head.len() {
                assert(head[k] == senders[k]);
                assert(before.contains(fan_out(head[k].0, head[k].1 as nat, message)[i]));
                let q = choose|q: int| 0 <= q < before.len() && before[q] == wanted;
                assert(all[q] == wanted);
            } else {
                assert(all[before.len() + i] == tail[i]);
            }
        }
    }
}

/// Where no port has two entries, what is sent to all holds nothing twice
/// for one sender: every sender of every port gets the message once.
pub proof fn lemma_sent_to_all_once(senders: Seq<(PortHandle, usize)>, message: MessageView)
    requires
        distinct_ports(senders),
    ensures
        forall|p: int, q: int|
            0 <= p < q < sent_to_all(senders, message).len() ==> !((#[trigger] sent_to_all(
                senders,
                message,
            )[p]).port == (#[trigger] sent_to_all(senders, message)[q]).port && sent_to_all(
                senders,
                message,
            )[p].sender == sent_to_all(senders, message)[q].sender),
    decreases senders.len(),
{
    let all = sent_to_all(senders, message);
    if senders.len() > 0 {
        let head = senders.drop_last();
        let last = senders.last();
        let before = sent_to_all(head, message);
        let tail = fan_out(last.0, last.1 as nat, message);
        assert(distinct_ports(head)) by {
            assert forall|a: int, b: int| 0 <= a < b < head.len() implies (#[trigger] head[a]).0
                != (#[trigger] head[b]).0 by {
                assert(senders[a] == head[a]);
                assert(senders[b] == head[b]);
            }
        }
        lemma_sent_to_all_once(head, message);
        lemma_sent_to_all_reaches(head, message);
        assert(all == before + tail);
        assert forall|p: int, q: int| 0 <= p < q < all.len() implies !((#[trigger] all[p]).port
            == (#[trigger] all[q]).port && all[p].sender == all[q].sender) by {
            if q < before.len() {
                assert(all[p] == before[p]);
                assert(all[q] == before[q]);
            } else if p < before.len() {
                assert(all[p] == before[p]);
                assert(all[q] == tail[q - before.len()]);
                assert(goes_to_a_sender(head, before[p]));
                let k = choose|k: int|
                    0 <= k < head.len() && (#[trigger] head[k]).0 == before[p].port && 0
                        <= before[p].sender < head[k].1;
                assert(senders[k] == head[k]);
                assert(senders[k].0 != senders[senders.len() - 1].0);
            } else {
                assert(all[p] == tail[p - before.len()]);
                assert(all[q] == tail[q - before.len()]);
            }
        }
    }
}

/// Two messages that are sent to all one after the other reach the
/// senders in that order: all of the first stand before all of the second.
/// So the commits of two epochs are queued in the order of the epochs.
pub proof fn lemma_sent_in_order(
    senders: Seq<(PortHandle, usize)>,
    first: MessageView,
    second: MessageView,
)
    ensures
        ({
            let queued = sent_to_all(senders, first) + sent_to_all(senders, second);
            let n = sent_to_all(senders, first).len();
            &&& sent_to_all(senders, second).len() == n
            &&& forall|q: int| 0 <= q < n ==> (#[trigger] queued[q]).message == first
            &&& forall|q: int| n <= q < queued.len() ==> (#[trigger] queued[q]).message == second
            &&& forall|q: int|
                0 <= q < n ==> (#[trigger] queued[q]).port == queued[q + n].port
                    && queued[q].sender == queued[q + n].sender
        }),
    decreases senders.len(),
{
    let a = sent_to_all(senders, first);
    let b = sent_to_all(senders, second);
    lemma_sent_to_all_reaches(senders, first);
    lemma_sent_to_all_reaches(senders, second);
    lemma_same_senders(senders, first, second);
    let queued = a + b;
    assert forall|q: int| 0 <= q < a.len() implies (#[trigger] queued[q]).message == first by {
        assert(queued[q] == a[q]);
    }
    assert forall|q: int| a.len() <= q < queued.len() implies (#[trigger] queued[q]).message
        == second by {
        assert(queued[q] == b[q - a.len()]);
    }
    assert forall|q: int| 0 <= q < a.len() implies (#[trigger] queued[q]).port == queued[q
        + a.len()].port && queued[q].sender == queued[q + a.len()].sender by {
        assert(queued[q] == a[q]);
        assert(queued[q + a.len()] == b[q]);
    }
}

/// Whatever is sent to all goes to the same senders in the same order.
pub proof fn lemma_same_senders(
    senders: Seq<(PortHandle, usize)>,
    first: MessageView,
    second: MessageView,
)
    ensures
        sent_to_all(senders, first).len() == sent_to_all(senders, second).len(),
        forall|q: int|
            0 <= q < sent_to_all(senders, first).len() ==> (#[trigger] sent_to_all(
                senders,
                first,
            )[q]).port == sent_to_all(senders, second)[q].port && sent_to_all(
                senders,
                first,
            )[q].sender == sent_to_all(senders, second)[q].sender,
    decreases senders.len(),
{
    if senders.len() > 0 {
        let head = senders.drop_last();
        lemma_same_senders(head, first, second);
        let a = sent_to_all(senders, first);
        let b = sent_to_all(senders, second);
        let ha = sent_to_all(head, first);
        let hb = sent_to_all(head, second);
        assert forall|q: int| 0 <= q < a.len() implies (#[trigger] a[q]).port == b[q].port
            && a[q].sender == b[q].sender by {
            if q < ha.len() {
                assert(a[q] == ha[q]);
                assert(b[q] == hb[q]);
            }
        }
    }
}

/// The position of the first entry of the port, and the number of entries
/// where it has none.
pub open spec fn port_position<T>(entries: Seq<(PortHandle, T)>, port: PortHandle) -> int
    decreases entries.len(),
{
    if entries.len() == 0 {
        0
    } else if entries.first().0 == port {
        0
    } else {
        1 + port_position(entries.drop_first(), port)
    }
}

/// The position of a port is that of its first entry.
pub proof fn lemma_port_position<T>(entries: Seq<(PortHandle, T)>, port: PortHandle, p: int)
    requires
        0 <= p <= entries.len(),
        forall|j: int| 0 <= j < p ==> (#[trigger] entries[j]).0 != port,
        p < entries.len() ==> entries[p].0 == port,
    ensures
        port_position(entries, port) == p,
    decreases entries.len(),
{
    if entries.len() > 0 && p > 0 {
        assert(entries[0].0 != port);
        let rest = entries.drop_first();
        assert forall|j: int| 0 <= j < p - 1 implies (#[trigger] rest[j]).0 != port by {
            assert(rest[j] == entries[j + 1]);
        }
        lemma_port_position(rest, port, p - 1);
    }
}

/// What persists the state of a node: the record store of each stateful
/// port, and for each source the last message that is committed.
#[derive(Debug)]
pub struct StateWriter {
    meta_db: SourceStates,
    record_writers: Vec<(PortHandle, RecordWriter)>,
}

impl StateWriter {
    /// For each source the last message that is committed.
    pub closed spec fn meta(&self) -> Seq<(NodeHandle, OpIdentifier)> {
        self.meta_db@
    }

    /// The record stores, each with its port.
    pub closed spec fn writers(&self) -> Seq<(PortHandle, RecordWriter)> {
        self.record_writers@
    }

    /// Every record store is well formed.
    pub closed spec fn wf(&self) -> bool {
        forall|i: int|
            0 <= i < self.record_writers@.len() ==> (#[trigger] self.record_writers@[i]).1.wf()
    }

    /// The others of the record stores are those of `other`.
    pub open spec fn same_writers_but(&self, other: &StateWriter, p: int) -> bool {
        &&& self.writers().len() == other.writers().len()
        &&& forall|i: int|
            0 <= i < self.writers().len() && i != p ==> #[trigger] self.writers()[i]
                == other.writers()[i]
    }

    /// The state after `before` has taken the operation `op` on `port`: the
    /// record store of the port holds what it holds after writing the
    /// operation, and nothing else has changed.
    pub open spec fn stores(&self, before: &StateWriter, op: OperationView, port: PortHandle) -> bool {
        let p = port_position(before.writers(), port);
        &&& self.meta() == before.meta()
        &&& if p >= before.writers().len() {
            self.writers() == before.writers()
        } else {
            let writer = before.writers()[p].1;
            &&& self.same_writers_but(before, p)
            &&& self.writers()[p].0 == port
            &&& self.writers()[p].1.key() == writer.key()
            &&& self.writers()[p].1.records() == (match written(
                writer.key(),
                writer.records(),
                op,
            ) {
                Ok((records, _)) => records,
                Err(_) => writer.records(),
            })
        }
    }

    pub fn new(meta_db: SourceStates, record_writers: Vec<(PortHandle, RecordWriter)>) -> (r: Option<
        Self,
    >)
        ensures
            r.is_some() == (forall|i: int|
                0 <= i < record_writers@.len() ==> (#[trigger] record_writers@[i]).1.wf()),
            r matches Some(w) ==> w.wf() && w.meta() == meta_db@ && w.writers()
                == record_writers@,
    {
        let mut i: usize = 0;
        while i < record_writers.len()
            invariant
                i <= record_writers@.len(),
                forall|j: int| 0 <= j < i ==> (#[trigger] record_writers@[j]).1.wf(),
            decreases record_writers@.len() - i,
        {
            if !record_writers[i].1.is_wf() {
                return None;
            }
            i += 1;
        }
        Some(Self { meta_db, record_writers })
    }

    /// Hands the operation to the record store of the port, and passes on
    /// what the store passes on; a port without a record store passes the
    /// operation on as it is.
    pub fn store_op(&mut self, op: Operation, port: &PortHandle) -> (r: Result<
        Operation,
        ExecutionError,
    >)
        requires
            old(self).wf(),
        ensures
            final(self).wf(),
            final(self).stores(old(self), op@, *port),
            ({
                let p = port_position(old(self).writers(), *port);
                if p >= old(self).writers().len() {
                    r == Ok::<Operation, ExecutionError>(op)
                } else {
                    let writer = old(self).writers()[p].1;
                    match written(writer.key(), writer.records(), op@) {
                        Ok((_, passed)) => r matches Ok(out) && out@ == passed,
                        Err(e) => r == Err::<Operation, ExecutionError>(e),
                    }
                }
            }),
    {
        let mut p: usize = 0;
        while p < self.record_writers.len() && self.record_writers[p].0 != *port
            invariant
                p <= self.record_writers@.len(),
                forall|j: int| 0 <= j < p ==> (#[trigger] self.record_writers@[j]).0 != *port,
            decreases self.record_writers@.len() - p,
        {
            p += 1;
        }
        proof {
            lemma_port_position(self.record_writers@, *port, p as int);
        }
        if p >= self.record_writers.len() {
            return Ok(op);
        }
        let ghost before = self.record_writers@;
        let (handle, mut writer) = self.record_writers.remove(p);
        let r = writer.write(op);
        self.record_writers.insert(p, (handle, writer));
        proof {
            assert forall|i: int| 0 <= i < self.record_writers@.len() && i != p implies (
            #[trigger] self.record_writers@[i]) == before[i] by {}
        }
        r
    }

    /// Persists how far the epoch reaches in each of its sources.
    pub fn store_commit_info(&mut self, epoch_details: &Epoch) -> (r: Result<(), ExecutionError>)
        ensures
            r.is_ok(),
            final(self).meta() == merged(old(self).meta(), epoch_details.details@),
            final(self).writers() == old(self).writers(),
            old(self).wf() ==> final(self).wf(),
    {
        merge_states(&mut self.meta_db, &epoch_details.details);
        Ok(())
    }

    /// The last committed message of each source.
    pub fn source_states(&self) -> (r: &SourceStates)
        ensures
            r@ == self.meta(),
    {
        &self.meta_db
    }
}

/// The output ports of a node and what is to be sent on them.
#[derive(Debug)]
pub struct ChannelManager {
    owner: NodeHandle,
    senders: Vec<(PortHandle, usize)>,
    state_writer: StateWriter,
    stateful: bool,
    outbox: Vec<Dispatch>,
}

/// What `send_op` hands to the senders of a port, or why it fails.
pub open spec fn stored(manager: ChannelManager, op: OperationView, port: PortHandle) -> Result<
    OperationView,
    ExecutionError,
> {
    let p = port_position(manager.writer().writers(), port);
    if !manager.is_stateful() || p >= manager.writer().writers().len() {
        Ok(op)
    } else {
        let writer = manager.writer().writers()[p].1;
        match written(writer.key(), writer.records(), op) {
            Ok((_, passed)) => Ok(passed),
            Err(e) => Err(e),
        }
    }
}

impl ChannelManager {
    /// The number of senders of each port.
    pub closed spec fn ports(&self) -> Seq<(PortHandle, usize)> {
        self.senders@
    }

    /// What is to be sent, oldest first.
    pub closed spec fn queued(&self) -> Seq<DispatchView> {
        dispatch_views(self.outbox@)
    }

    /// What persists the state of the node.
    pub closed spec fn writer(&self) -> StateWriter {
        self.state_writer
    }

    /// Whether operations pass through the record stores.
    pub closed spec fn is_stateful(&self) -> bool {
        self.stateful
    }

    /// The node of the manager.
    pub closed spec fn node(&self) -> NodeHandle {
        self.owner
    }

    /// The invariant of the manager: no port has two entries, and what
    /// persists the state is in order.
    pub closed spec fn wf(&self) -> bool {
        &&& self.state_writer.wf()
        &&& distinct_ports(self.senders@)
    }

    /// No port of a manager has two entries.
    pub proof fn lemma_ports_distinct(&self)
        requires
            self.wf(),
        ensures
            distinct_ports(self.ports()),
    {
    }

    /// The ports and the node are those of `other`.
    pub open spec fn same_ports(&self, other: &ChannelManager) -> bool {
        &&& self.ports() == other.ports()
        &&& self.node() == other.node()
        &&& self.is_stateful() == other.is_stateful()
    }

    pub fn new(
        owner: NodeHandle,
        senders: Vec<(PortHandle, usize)>,
        state_writer: StateWriter,
        stateful: bool,
    ) -> (r: Self)
        requires
            state_writer.wf(),
            distinct_ports(senders@),
        ensures
            r.wf(),
            r.node() == owner,
            r.ports() == senders@,
            r.writer() == state_writer,
            r.is_stateful() == stateful,
            r.queued() == Seq::<DispatchView>::empty(),
    {
        let r = Self { owner, senders, state_writer, stateful, outbox: Vec::new() };
        assert(r.queued() =~= Seq::<DispatchView>::empty());
        r
    }

    fn queue_for_port(&mut self, port: PortHandle, n: usize, message: ExecutorOperation)
        ensures
            final(self).queued() == old(self).queued() + fan_out(port, n as nat, message@),
            final(self).ports() == old(self).ports(),
            final(self).node() == old(self).node(),
            final(self).writer() == old(self).writer(),
            final(self).is_stateful() == old(self).is_stateful(),
    {
        if n == 0 {
            assert(self.queued() =~= old(self).queued() + fan_out(port, 0, message@));
            return ;
        }
        let mut i: usize = 0;
        while i + 1 < n
            invariant
                i < n,
                dispatch_views(self.outbox@) == dispatch_views(old(self).outbox@) + fan_out(
                    port,
                    i as nat,
                    message@,
                ),
                self.senders@ == old(self).senders@,
                self.owner == old(self).owner,
                self.state_writer == old(self).state_writer,
                self.stateful == old(self).stateful,
            decreases n - i,
        {
            let ghost before = dispatch_views(self.outbox@);
            self.outbox.push(Dispatch { port, sender: i, message: message.clone() });
            proof {
                assert(dispatch_views(self.outbox@) =~= before.push(
                    DispatchView { port, sender: i as int, message: message@ },
                ));
                assert(fan_out(port, (i + 1) as nat, message@) =~= fan_out(
                    port,
                    i as nat,
                    message@,
                ).push(DispatchView { port, sender: i as int, message: message@ }));
            }
            i += 1;
        }
        let ghost before = dispatch_views(self.outbox@);
        let ghost m = message@;
        // The last sender gets the message itself.
        self.outbox.push(Dispatch { port, sender: i, message });
        proof {
            assert(dispatch_views(self.outbox@) =~= before.push(
                DispatchView { port, sender: i as int, message: m },
            ));
            assert(fan_out(port, n as nat, m) =~= fan_out(port, i as nat, m).push(
                DispatchView { port, sender: i as int, message: m },
            ));
        }
    }

    fn queue_for_all(&mut self, message: ExecutorOperation)
        ensures
            final(self).queued() == old(self).queued() + sent_to_all(old(self).ports(), message@),
            final(self).ports() == old(self).ports(),
            final(self).node() == old(self).node(),
            final(self).writer() == old(self).writer(),
            final(self).is_stateful() == old(self).is_stateful(),
    {
        let mut k: usize = 0;
        assert(self.queued() =~= old(self).queued() + sent_to_all(
            self.senders@.subrange(0, 0),
            message@,
        ));
        while k < self.senders.len()
            invariant
                k <= self.senders@.len(),
                self.queued() == old(self).queued() + sent_to_all(
                    self.senders@.subrange(0, k as int),
                    message@,
                ),
                self.senders@ == old(self).senders@,
                self.owner == old(self).owner,
                self.state_writer == old(self).state_writer,
                self.stateful == old(self).stateful,
            decreases self.senders@.len() - k,
        {
            let port = self.senders[k].0;
            let n = self.senders[k].1;
            proof {
                let next = self.senders@.subrange(0, k + 1);
                assert(next.drop_last() =~= self.senders@.subrange(0, k as int));
                assert(next.last() == self.senders@[k as int]);
            }
            let ghost before = self.queued();
            self.queue_for_port(port, n, message.clone());
            proof {
                assert(self.queued() =~= old(self).queued() + sent_to_all(
                    self.senders@.subrange(0, k + 1),
                    message@,
                ));
            }
            k += 1;
        }
        assert(self.senders@.subrange(0, k as int) =~= self.senders@);
    }

    /// Sends an operation to every sender of a port. A stateful node
    /// passes the operation through the record store of the port first,
    /// and sends what the store passes on. Every sender but the last gets
    /// a copy, the last one the operation itself.
    pub fn send_op(&mut self, op: Operation, port_id: PortHandle) -> (r: Result<
        (),
        ExecutionError,
    >)
        requires
            old(self).wf(),
        ensures
            final(self).wf(),
            final(self).same_ports(old(self)),
            old(self).is_stateful() ==> final(self).writer().stores(
                &old(self).writer(),
                op@,
                port_id,
            ),
            !old(self).is_stateful() ==> final(self).writer() == old(self).writer(),
            match stored(*old(self), op@, port_id) {
                Err(e) => r == Err::<(), ExecutionError>(e)
                    && final(self).queued() == old(self).queued(),
                Ok(passed) => {
                    let p = port_position(old(self).ports(), port_id);
                    if p >= old(self).ports().len() {
                        r == Err::<(), ExecutionError>(ExecutionError::InvalidPortHandle(port_id))
                            && final(self).queued() == old(self).queued()
                    } else {
                        r.is_ok() && final(self).queued() == old(self).queued() + fan_out(
                            port_id,
                            old(self).ports()[p].1 as nat,
                            MessageView::Op(passed),
                        )
                    }
                },
            },
    {
        let mut op = op;
        if self.stateful {
            op = match self.state_writer.store_op(op, &port_id) {
                Ok(op) => op,
                Err(e) => {
                    return Err(e);
                },
            };
        }
        let mut p: usize = 0;
        while p < self.senders.len() && self.senders[p].0 != port_id
            invariant
                p <= self.senders@.len(),
                forall|j: int| 0 <= j < p ==> (#[trigger] self.senders@[j]).0 != port_id,
            decreases self.senders@.len() - p,
        {
            p += 1;
        }
        proof {
            lemma_port_position(self.senders@, port_id, p as int);
        }
        if p >= self.senders.len() {
            return Err(ExecutionError::InvalidPortHandle(port_id));
        }
        let n = self.senders[p].1;
        let exec_op = ExecutorOperation::Op { op };
        self.queue_for_port(port_id, n, exec_op);
        Ok(())
    }

    /// Sends the end of the dataflow to every sender of every port.
    pub fn send_terminate(&mut self) -> (r: Result<(), ExecutionError>)
        ensures
            r.is_ok(),
            final(self).same_ports(old(self)),
            final(self).writer() == old(self).writer(),
            final(self).queued() == old(self).queued() + sent_to_all(
                old(self).ports(),
                MessageView::Terminate,
            ),
    {
        self.queue_for_all(ExecutorOperation::Terminate);
        Ok(())
    }

    /// Sends the end of the snapshot to every sender of every port.
    pub fn send_snapshotting_done(&mut self) -> (r: Result<(), ExecutionError>)
        ensures
            r.is_ok(),
            final(self).same_ports(old(self)),
            final(self).writer() == old(self).writer(),
            final(self).queued() == old(self).queued() + sent_to_all(
                old(self).ports(),
                MessageView::SnapshottingDone,
            ),
    {
        self.queue_for_all(ExecutorOperation::SnapshottingDone);
        Ok(())
    }

    /// Persists how far the epoch reaches in its sources, and then sends
    /// its commit to every sender of every port.
    pub fn store_and_send_commit(&mut self, epoch: &Epoch) -> (r: Result<(), ExecutionError>)
        ensures
            r.is_ok(),
            final(self).same_ports(old(self)),
            old(self).wf() ==> final(self).wf(),
            final(self).writer().meta() == merged(old(self).writer().meta(), epoch.details@),
            final(self).writer().writers() == old(self).writer().writers(),
            final(self).queued() == old(self).queued() + sent_to_all(
                old(self).ports(),
                MessageView::Commit(epoch.id, epoch.details@),
            ),
    {
        match self.state_writer.store_commit_info(epoch) {
            Ok(()) => {},
            Err(e) => {
                return Err(e);
            },
        }
        self.queue_for_all(ExecutorOperation::Commit { epoch: epoch.clone() });
        Ok(())
    }

    /// Hands over what is to be sent, oldest first, and keeps nothing of
    /// it.
    pub fn take_outbox(&mut self) -> (r: Vec<Dispatch>)
        ensures
            dispatch_views(r@) == old(self).queued(),
            final(self).queued() == Seq::<DispatchView>::empty(),
            final(self).same_ports(old(self)),
            final(self).writer() == old(self).writer(),
    {
        let mut out: Vec<Dispatch> = Vec::new();
        std::mem::swap(&mut out, &mut self.outbox);
        assert(self.queued() =~= Seq::<DispatchView>::empty());
        out
    }
}

/// What a source tells the barrier of the sources when it asks for a
/// commit.
#[derive(Clone, Copy, Debug, PartialEq, Eq, Structural)]
pub struct EpochVote {
    pub request_termination: bool,
    pub has_uncommitted: bool,
}

/// The output ports of a source, and when it asks for a commit.
#[derive(Debug)]
pub struct SourceChannelManager {
    source_handle: NodeHandle,
    manager: ChannelManager,
    curr_txid: u64,
    curr_seq_in_tx: u64,
    commit_sz: u32,
    num_uncommitted_ops: u32,
    max_duration_between_commits: u64,
    last_commit_instant: u64,
}

/// The time from `since` to `now`, and none where `now` is before.
pub open spec fn elapsed(since: u64, now: u64) -> int {
    if now >= since {
        now - since
    } else {
        0
    }
}

/// One more, up to the largest number.
pub open spec fn one_more(n: u32) -> u32 {
    if n < u32::MAX {
        (n + 1) as u32
    } else {
        n
    }
}

impl SourceChannelManager {
    /// The output ports and what is to be sent on them.
    pub closed spec fn channels(&self) -> ChannelManager {
        self.manager
    }

    /// The node of the source.
    pub closed spec fn handle(&self) -> NodeHandle {
        self.source_handle
    }

    /// The place of the last message of the source.
    pub closed spec fn position(&self) -> OpIdentifier {
        OpIdentifier { txid: self.curr_txid, seq_in_tx: self.curr_seq_in_tx }
    }

    /// The operations sent since the last commit.
    pub closed spec fn uncommitted(&self) -> u32 {
        self.num_uncommitted_ops
    }

    /// The operations after which a commit is asked for.
    pub closed spec fn commit_size(&self) -> u32 {
        self.commit_sz
    }

    /// The time after which a commit is asked for, in milliseconds.
    pub closed spec fn max_duration(&self) -> u64 {
        self.max_duration_between_commits
    }

    /// The instant of the last commit, in milliseconds.
    pub closed spec fn last_commit(&self) -> u64 {
        self.last_commit_instant
    }

    /// The invariant of the manager.
    pub closed spec fn wf(&self) -> bool {
        self.manager.wf()
    }

    /// The settings of the source are those of `other`.
    pub open spec fn same_settings(&self, other: &SourceChannelManager) -> bool {
        &&& self.handle() == other.handle()
        &&& self.commit_size() == other.commit_size()
        &&& self.max_duration() == other.max_duration()
        &&& self.channels().same_ports(&other.channels())
    }

    /// Whether the source asks for a commit at the instant `now`: it has
    /// sent as many operations as a commit takes, or the time between two
    /// commits has passed.
    pub open spec fn commit_is_due(&self, now: u64) -> bool {
        self.uncommitted() >= self.commit_size() || elapsed(self.last_commit(), now)
            >= self.max_duration()
    }

    /// The vote of the source at the instant `now`, if it votes.
    pub open spec fn vote_at(&self, request_termination: bool, now: u64) -> Option<EpochVote> {
        if request_termination || self.commit_is_due(now) {
            Some(EpochVote { request_termination, has_uncommitted: self.uncommitted() > 0 })
        } else {
            None
        }
    }

    /// A manager for a source that has sent nothing yet, at the instant
    /// `now`.
    pub fn new(
        owner: NodeHandle,
        senders: Vec<(PortHandle, usize)>,
        state_writer: StateWriter,
        stateful: bool,
        commit_sz: u32,
        max_duration_between_commits: u64,
        now: u64,
    ) -> (r: Self)
        requires
            state_writer.wf(),
            distinct_ports(senders@),
        ensures
            r.wf(),
            r.handle() == owner,
            r.channels().node() == owner,
            r.channels().ports() == senders@,
            r.channels().writer() == state_writer,
            r.channels().is_stateful() == stateful,
            r.channels().queued() == Seq::<DispatchView>::empty(),
            r.position() == (OpIdentifier { txid: 0, seq_in_tx: 0 }),
            r.uncommitted() == 0,
            r.commit_size() == commit_sz,
            r.max_duration() == max_duration_between_commits,
            r.last_commit() == now,
    {
        Self {
            manager: ChannelManager::new(owner.clone(), senders, state_writer, stateful),
            curr_txid: 0,
            curr_seq_in_tx: 0,
            source_handle: owner,
            commit_sz,
            num_uncommitted_ops: 0,
            max_duration_between_commits,
            last_commit_instant: now,
        }
    }

    /// Tells whether the source asks for a commit at the instant `now`.
    pub fn should_participate_in_commit(&self, now: u64) -> (r: bool)
        ensures
            r == self.commit_is_due(now),
    {
        let passed = if now >= self.last_commit_instant {
            now - self.last_commit_instant
        } else {
            0
        };
        self.num_uncommitted_ops >= self.commit_sz || passed >= self.max_duration_between_commits
    }

    /// Takes the decision of the barrier of the sources. Where an epoch is
    /// committed, the place of the source in it is persisted and its commit
    /// is sent on every port. The count of operations starts anew, and so
    /// does the time to the next commit, from the instant of the decision.
    /// Tells whether the dataflow ends.
    pub fn commit(&mut self, decision: EpochDecision) -> (r: Result<bool, ExecutionError>)
        requires
            old(self).wf(),
        ensures
            final(self).wf(),
            final(self).same_settings(old(self)),
            r == Ok::<bool, ExecutionError>(decision.terminating),
            final(self).uncommitted() == 0,
            final(self).last_commit() == decision.instant,
            final(self).position() == old(self).position(),
            final(self).channels().writer().writers() == old(self).channels().writer().writers(),
            match decision.epoch {
                Some(epoch_id) => {
                    let details = seq![(old(self).handle(), old(self).position())];
                    &&& final(self).channels().queued() == old(self).channels().queued()
                        + sent_to_all(
                        old(self).channels().ports(),
                        MessageView::Commit(epoch_id, details),
                    )
                    &&& final(self).channels().writer().meta() == merged(
                        old(self).channels().writer().meta(),
                        details,
                    )
                },
                None => final(self).channels().queued() == old(self).channels().queued()
                    && final(self).channels().writer().meta() == old(self).channels().writer().meta(),
            },
    {
        if let Some(epoch_id) = decision.epoch {
            let epoch = Epoch::from(
                epoch_id,
                self.source_handle.clone(),
                self.curr_txid,
                self.curr_seq_in_tx,
            );
            match self.manager.store_and_send_commit(&epoch) {
                Ok(()) => {},
                Err(e) => {
                    return Err(e);
                },
            }
        }
        self.num_uncommitted_ops = 0;
        self.last_commit_instant = decision.instant;
        Ok(decision.terminating)
    }

    /// The vote of the source at the instant `now`: it votes where the end
    /// of the dataflow is asked for or a commit is due.
    pub fn trigger_commit_if_needed(&self, request_termination: bool, now: u64) -> (r: Option<
        EpochVote,
    >)
        ensures
            r == self.vote_at(request_termination, now),
    {
        if request_termination || self.should_participate_in_commit(now) {
            Some(EpochVote { request_termination, has_uncommitted: self.num_uncommitted_ops > 0 })
        } else {
            None
        }
    }

    /// Takes a message of the source. Its place becomes the place of the
    /// source. An operation is sent on the given port and counted, and the
    /// source votes where a commit is due; the end of the snapshot is
    /// counted and sent on every port, and the source votes.
    pub fn send_and_trigger_commit_if_needed(
        &mut self,
        message: IngestionMessage,
        port: PortHandle,
        request_termination: bool,
        now: u64,
    ) -> (r: Result<Option<EpochVote>, ExecutionError>)
        requires
            old(self).wf(),
        ensures
            final(self).wf(),
            final(self).same_settings(old(self)),
            final(self).position() == message.identifier,
            final(self).last_commit() == old(self).last_commit(),
            match message.kind {
                IngestionMessageKind::OperationEvent(op) => if old(self).channels().is_stateful() {
                    final(self).channels().writer().stores(
                        &old(self).channels().writer(),
                        op@,
                        port,
                    )
                } else {
                    final(self).channels().writer() == old(self).channels().writer()
                },
                IngestionMessageKind::SnapshottingDone => final(self).channels().writer() == old(self).channels().writer(),
            },
            match message.kind {
                IngestionMessageKind::OperationEvent(op) => match stored(
                    old(self).channels(),
                    op@,
                    port,
                ) {
                    Err(e) => r == Err::<Option<EpochVote>, ExecutionError>(e)
                        && final(self).uncommitted() == old(self).uncommitted()
                        && final(self).channels().queued()
                        == old(self).channels().queued(),
                    Ok(passed) => {
                        let p = port_position(old(self).channels().ports(), port);
                        if p >= old(self).channels().ports().len() {
                            r == Err::<Option<EpochVote>, ExecutionError>(
                                ExecutionError::InvalidPortHandle(port),
                            ) && final(self).uncommitted() == old(self).uncommitted()
                                && final(self).channels().queued() == old(self).channels().queued()
                        } else {
                            &&& final(self).uncommitted() == one_more(old(self).uncommitted())
                            &&& r == Ok::<Option<EpochVote>, ExecutionError>(
                                final(self).vote_at(request_termination, now),
                            )
                            &&& final(self).channels().queued() == old(self).channels().queued()
                                + fan_out(
                                port,
                                old(self).channels().ports()[p].1 as nat,
                                MessageView::Op(passed),
                            )
                        }
                    },
                },
                IngestionMessageKind::SnapshottingDone => {
                    &&& final(self).uncommitted() == one_more(old(self).uncommitted())
                    &&& r == Ok::<Option<EpochVote>, ExecutionError>(
                        Some(
                            EpochVote {
                                request_termination,
                                has_uncommitted: final(self).uncommitted() > 0,
                            },
                        ),
                    )
                    &&& final(self).channels().queued() == old(self).channels().queued()
                        + sent_to_all(old(self).channels().ports(), MessageView::SnapshottingDone)
                },
            },
    {
        self.curr_txid = message.identifier.txid;
        self.curr_seq_in_tx = message.identifier.seq_in_tx;
        match message.kind {
            IngestionMessageKind::OperationEvent(op) => {
                match self.manager.send_op(op, port) {
                    Ok(()) => {},
                    Err(e) => {
                        return Err(e);
                    },
                }
                if self.num_uncommitted_ops < u32::MAX {
                    self.num_uncommitted_ops = self.num_uncommitted_ops + 1;
                }
                Ok(self.trigger_commit_if_needed(request_termination, now))
            },
            IngestionMessageKind::SnapshottingDone => {
                if self.num_uncommitted_ops < u32::MAX {
                    self.num_uncommitted_ops = self.num_uncommitted_ops + 1;
                }
                match self.manager.send_snapshotting_done() {
                    Ok(()) => {},
                    Err(e) => {
                        return Err(e);
                    },
                }
                Ok(
                    Some(
                        EpochVote {
                            request_termination,
                            has_uncommitted: self.num_uncommitted_ops > 0,
                        },
                    ),
                )
            },
        }
    }

    /// Sends the end of the dataflow on every port.
    pub fn terminate(&mut self) -> (r: Result<(), ExecutionError>)
        ensures
            r.is_ok(),
            final(self).same_settings(old(self)),
            final(self).uncommitted() == old(self).uncommitted(),
            final(self).position() == old(self).position(),
            final(self).last_commit() == old(self).last_commit(),
            final(self).channels().writer() == old(self).channels().writer(),
            final(self).channels().queued() == old(self).channels().queued() + sent_to_all(
                old(self).channels().ports(),
                MessageView::Terminate,
            ),
    {
        self.manager.send_terminate()
    }

    /// Hands over what is to be sent, oldest first.
    pub fn take_outbox(&mut self) -> (r: Vec<Dispatch>)
        ensures
            dispatch_views(r@) == old(self).channels().queued(),
            final(self).channels().queued() == Seq::<DispatchView>::empty(),
            final(self).same_settings(old(self)),
            final(self).uncommitted() == old(self).uncommitted(),
            final(self).position() == old(self).position(),
            final(self).last_commit() == old(self).last_commit(),
            final(self).channels().writer() == old(self).channels().writer(),
    {
        self.manager.take_outbox()
    }
}

/// The output ports of a processor.
#[derive(Debug)]
pub struct ProcessorChannelManager {
    manager: ChannelManager,
}

impl ProcessorChannelManager {
    /// The output ports and what is to be sent on them.
    pub closed spec fn channels(&self) -> ChannelManager {
        self.manager
    }

    pub fn new(
        owner: NodeHandle,
        senders: Vec<(PortHandle, usize)>,
        state_writer: StateWriter,
        stateful: bool,
    ) -> (r: Self)
        requires
            state_writer.wf(),
            distinct_ports(senders@),
        ensures
            r.channels().wf(),
            r.channels().node() == owner,
            r.channels().ports() == senders@,
            r.channels().writer() == state_writer,
            r.channels().is_stateful() == stateful,
            r.channels().queued() == Seq::<DispatchView>::empty(),
    {
        Self { manager: ChannelManager::new(owner, senders, state_writer, stateful) }
    }

    pub fn store_and_send_commit(&mut self, epoch: &Epoch) -> (r: Result<(), ExecutionError>)
        ensures
            r.is_ok(),
            final(self).channels().same_ports(&old(self).channels()),
            old(self).channels().wf() ==> final(self).channels().wf(),
            final(self).channels().writer().meta() == merged(
                old(self).channels().writer().meta(),
                epoch.details@,
            ),
            final(self).channels().writer().writers() == old(self).channels().writer().writers(),
            final(self).channels().queued() == old(self).channels().queued() + sent_to_all(
                old(self).channels().ports(),
                MessageView::Commit(epoch.id, epoch.details@),
            ),
    {
        self.manager.store_and_send_commit(epoch)
    }

    pub fn send_terminate(&mut self) -> (r: Result<(), ExecutionError>)
        ensures
            r.is_ok(),
            final(self).channels().same_ports(&old(self).channels()),
            final(self).channels().writer() == old(self).channels().writer(),
            final(self).channels().queued() == old(self).channels().queued() + sent_to_all(
                old(self).channels().ports(),
                MessageView::Terminate,
            ),
    {
        self.manager.send_terminate()
    }

    pub fn send_snapshotting_done(&mut self) -> (r: Result<(), ExecutionError>)
        ensures
            r.is_ok(),
            final(self).channels().same_ports(&old(self).channels()),
            final(self).channels().writer() == old(self).channels().writer(),
            final(self).channels().queued() == old(self).channels().queued() + sent_to_all(
                old(self).channels().ports(),
                MessageView::SnapshottingDone,
            ),
    {
        self.manager.send_snapshotting_done()
    }

    /// Sends an operation to every sender of a port.
    pub fn send(&mut self, op: Operation, port: PortHandle) -> (r: Result<(), ExecutionError>)
        requires
            old(self).channels().wf(),
        ensures
            final(self).channels().wf(),
            final(self).channels().same_ports(&old(self).channels()),
            old(self).channels().is_stateful() ==> final(self).channels().writer().stores(
                &old(self).channels().writer(),
                op@,
                port,
            ),
            !old(self).channels().is_stateful()
                ==> final(self).channels().writer() == old(self).channels().writer(),
            match stored(old(self).channels(), op@, port) {
                Err(e) => r == Err::<(), ExecutionError>(e) && final(self).channels().queued()
                    == old(self).channels().queued(),
                Ok(passed) => {
                    let p = port_position(old(self).channels().ports(), port);
                    if p >= old(self).channels().ports().len() {
                        r == Err::<(), ExecutionError>(ExecutionError::InvalidPortHandle(port))
                            && final(self).channels().queued() == old(self).channels().queued()
                    } else {
                        r.is_ok()
                            && final(self).channels().queued() == old(self).channels().queued() + fan_out(
                            port,
                            old(self).channels().ports()[p].1 as nat,
                            MessageView::Op(passed),
                        )
                    }
                },
            },
    {
        self.manager.send_op(op, port)
    }

    /// Hands over what is to be sent, oldest first.
    pub fn take_outbox(&mut self) -> (r: Vec<Dispatch>)
        ensures
            dispatch_views(r@) == old(self).channels().queued(),
            final(self).channels().queued() == Seq::<DispatchView>::empty(),
            final(self).channels().same_ports(&old(self).channels()),
            final(self).channels().writer() == old(self).channels().writer(),
    {
        self.manager.take_outbox()
    }
}

} // verus!
