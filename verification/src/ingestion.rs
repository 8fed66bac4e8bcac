//! What a connector hands to the engine.

use vstd::prelude::*;
use crate::types::Operation;

verus! {

/// The place of a message in its source: the transaction and the position
/// in it.
#[derive(Clone, Copy, Debug, PartialEq, Eq, Structural, Hash)]
pub struct OpIdentifier {
    pub txid: u64,
    pub seq_in_tx: u64,
}

impl OpIdentifier {
    pub fn new(txid: u64, seq_in_tx: u64) -> (r: Self)
        ensures
            r == (OpIdentifier { txid, seq_in_tx }),
    {
        Self { txid, seq_in_tx }
    }

    /// The order of the messages of a source: by transaction, then by
    /// position.
    pub open spec fn precedes(self, other: OpIdentifier) -> bool {
        self.txid < other.txid || (self.txid == other.txid && self.seq_in_tx < other.seq_in_tx)
    }

    /// Tells whether `self` comes before `other` in their source.
    pub fn is_before(&self, other: &OpIdentifier) -> (r: bool)
        ensures
            r == self.precedes(*other),
    {
        self.txid < other.txid || (self.txid == other.txid && self.seq_in_tx < other.seq_in_tx)
    }
}

/// What a message of a source carries.
#[derive(Debug, PartialEq, Eq)]
pub enum IngestionMessageKind {
    OperationEvent(Operation),
    SnapshottingDone,
}

/// A message of a source.
#[derive(Debug, PartialEq, Eq)]
pub struct IngestionMessage {
    pub identifier: OpIdentifier,
    pub kind: IngestionMessageKind,
}

impl IngestionMessage {
    pub fn new_op(txn: u64, seq_no: u64, op: Operation) -> (r: Self)
        ensures
            r.identifier == (OpIdentifier { txid: txn, seq_in_tx: seq_no }),
            r.kind == IngestionMessageKind::OperationEvent(op),
    {
        Self {
            identifier: OpIdentifier::new(txn, seq_no),
            kind: IngestionMessageKind::OperationEvent(op),
        }
    }

    pub fn new_snapshotting_done(txn: u64, seq_no: u64) -> (r: Self)
        ensures
            r.identifier == (OpIdentifier { txid: txn, seq_in_tx: seq_no }),
            r.kind == IngestionMessageKind::SnapshottingDone,
    {
        Self { identifier: OpIdentifier::new(txn, seq_no), kind: IngestionMessageKind::SnapshottingDone }
    }
}

/// The messages that a connector has handed over and that the engine has
/// not taken yet, oldest first.
#[derive(Debug)]
pub struct Ingestor {
    pub messages: Vec<IngestionMessage>,
}

impl Ingestor {
    pub fn new() -> (r: Self)
        ensures
            r.messages@ == Seq::<IngestionMessage>::empty(),
    {
        Self { messages: Vec::new() }
    }

    /// Takes a message from the connector.
    pub fn handle_message(&mut self, message: IngestionMessage)
        ensures
            final(self).messages@ == old(self).messages@.push(message),
    {
        self.messages.push(message);
    }

    /// Hands the oldest message to the engine.
    pub fn next_message(&mut self) -> (r: Option<IngestionMessage>)
        ensures
            old(self).messages@.len() == 0 ==> r.is_none()
                && final(self).messages@ == old(self).messages@,
            old(self).messages@.len() > 0 ==> r == Some(old(self).messages@[0])
                && final(self).messages@ == old(self).messages@.drop_first(),
    {
        if self.messages.len() == 0 {
            None
        } else {
            let m = self.messages.remove(0);
            assert(self.messages@ =~= old(self).messages@.drop_first());
            Some(m)
        }
    }
}

} // verus!
