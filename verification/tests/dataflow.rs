use dozer::epoch::{
    get_state, merge_states, put_state, Epoch, EpochBarrier, EpochDecision, EpochManager,
    NodeHandle,
};
use dozer::errors::ExecutionError;
use dozer::field::Field;
use dozer::forwarder::{
    Dispatch, EpochVote, ExecutorOperation, ProcessorChannelManager, SourceChannelManager,
    StateWriter,
};
use dozer::ingestion::{IngestionMessage, Ingestor, OpIdentifier};
use dozer::record_store::RecordWriter;
use dozer::types::{Operation, Record};

fn node(id: &str) -> NodeHandle {
    NodeHandle::new(None, id.to_string())
}

fn record(id: i64, name: &str) -> Record {
    Record::new(None, vec![Field::Int(id), Field::String(name.to_string())], None)
}

fn source(name: &str, commit_sz: u32, max_duration: u64) -> SourceChannelManager {
    let writer = StateWriter::new(vec![], vec![]).unwrap();
    SourceChannelManager::new(node(name), vec![(1, 1)], writer, false, commit_sz, max_duration, 0)
}

#[test]
fn epoch_ids_ascend() {
    let mut manager = EpochManager::new(1);
    let mut last = None;
    for now in 0..5u64 {
        let decision = manager.wait_for_epoch_close(false, true, now).unwrap();
        assert_eq!(decision.terminating, false);
        assert_eq!(decision.instant, now);
        let id = decision.epoch.unwrap();
        assert!(last.map_or(true, |l| l < id));
        last = Some(id);
    }
    assert_eq!(last, Some(4));
    assert_eq!(manager.next_epoch_id(), 5);
}

#[test]
fn epoch_closes_with_the_last_vote() {
    let mut manager = EpochManager::new(3);
    assert_eq!(manager.wait_for_epoch_close(true, false, 10), None);
    assert_eq!(manager.wait_for_epoch_close(false, false, 11), None);
    assert_eq!(
        manager.wait_for_epoch_close(true, true, 12),
        Some(EpochDecision { terminating: false, epoch: Some(0), instant: 12 })
    );
    // Nobody has anything to commit: no epoch.
    assert_eq!(manager.wait_for_epoch_close(false, false, 13), None);
    assert_eq!(manager.wait_for_epoch_close(false, false, 14), None);
    assert_eq!(
        manager.wait_for_epoch_close(true, false, 15),
        Some(EpochDecision { terminating: false, epoch: None, instant: 15 })
    );
    // Everybody asks to end.
    assert_eq!(manager.wait_for_epoch_close(true, true, 16), None);
    assert_eq!(manager.wait_for_epoch_close(true, false, 17), None);
    assert_eq!(
        manager.wait_for_epoch_close(true, false, 18),
        Some(EpochDecision { terminating: true, epoch: None, instant: 18 })
    );
    assert_eq!(manager.next_epoch_id(), 1);
}

#[test]
fn epoch_barrier_with_two_sources() {
    let commit_timeout = 5000;
    let mut a = source("A", 10000, commit_timeout);
    let mut b = source("B", 10000, commit_timeout);
    let mut epochs = EpochManager::new(2);
    let mut sink = EpochBarrier::new(vec![10, 20]).unwrap();

    for seq in 1..=3u64 {
        let message = IngestionMessage::new_op(7, seq, Operation::Insert { new: record(1, "a") });
        assert_eq!(a.send_and_trigger_commit_if_needed(message, 1, false, 100), Ok(None));
    }
    for seq in 1..=5u64 {
        let message = IngestionMessage::new_op(9, seq, Operation::Insert { new: record(2, "b") });
        assert_eq!(b.send_and_trigger_commit_if_needed(message, 1, false, 100), Ok(None));
    }
    assert_eq!(a.take_outbox().len(), 3);
    assert_eq!(b.take_outbox().len(), 5);

    // Nothing is due before the timeout.
    assert_eq!(a.trigger_commit_if_needed(false, 4999), None);
    let vote_a = a.trigger_commit_if_needed(false, 5000).unwrap();
    let vote_b = b.trigger_commit_if_needed(false, 5001).unwrap();
    assert_eq!(vote_a, EpochVote { request_termination: false, has_uncommitted: true });

    assert_eq!(
        epochs.wait_for_epoch_close(vote_a.request_termination, vote_a.has_uncommitted, 5000),
        None
    );
    let decision = epochs
        .wait_for_epoch_close(vote_b.request_termination, vote_b.has_uncommitted, 5002)
        .unwrap();
    assert_eq!(decision, EpochDecision { terminating: false, epoch: Some(0), instant: 5002 });
    assert_eq!(epochs.next_epoch_id(), 1);

    assert_eq!(a.commit(decision), Ok(false));
    assert_eq!(b.commit(decision), Ok(false));
    let from_a = a.take_outbox();
    let from_b = b.take_outbox();
    assert_eq!(from_a.len(), 1);
    assert_eq!(from_b.len(), 1);

    let mut received = Vec::new();
    for (port, dispatch) in [(10, &from_a[0]), (20, &from_b[0])] {
        match &dispatch.message {
            ExecutorOperation::Commit { epoch } => {
                if let Some(merged) = sink.on_commit(port, epoch).unwrap() {
                    received.push(merged);
                }
            }
            _ => panic!("a commit is expected"),
        }
    }
    assert_eq!(
        received,
        vec![Epoch::new(
            0,
            vec![
                (node("A"), OpIdentifier::new(7, 3)),
                (node("B"), OpIdentifier::new(9, 5)),
            ]
        )]
    );
    // The timers of both sources start anew at the instant of the decision.
    assert_eq!(a.trigger_commit_if_needed(false, 10001), None);
    assert!(a.trigger_commit_if_needed(false, 10002).is_some());
}

#[test]
fn barrier_refuses_what_is_out_of_turn() {
    let mut barrier = EpochBarrier::new(vec![1, 2]).unwrap();
    let first = Epoch::from(4, node("s"), 1, 1);
    assert_eq!(barrier.on_commit(3, &first), Err(ExecutionError::InvalidPortHandle(3)));
    assert_eq!(barrier.on_commit(1, &first), Ok(None));
    assert_eq!(barrier.on_commit(1, &first), Err(ExecutionError::InvalidOperation));
    assert_eq!(
        barrier.on_commit(2, &Epoch::from(5, node("s"), 1, 2)),
        Err(ExecutionError::InvalidOperation)
    );
    assert!(barrier.on_commit(2, &first).unwrap().is_some());
    // The same epoch is not passed on twice.
    assert_eq!(barrier.on_commit(1, &first), Err(ExecutionError::InvalidOperation));
    assert_eq!(barrier.on_commit(1, &Epoch::from(5, node("s"), 1, 2)), Ok(None));
    assert!(EpochBarrier::new(vec![]).is_none());
    assert!(EpochBarrier::new(vec![1, 1]).is_none());
}

#[test]
fn source_states_are_merged() {
    let mut states = vec![(node("a"), OpIdentifier::new(1, 1))];
    put_state(&mut states, &node("b"), OpIdentifier::new(2, 2));
    put_state(&mut states, &node("a"), OpIdentifier::new(3, 3));
    assert_eq!(
        states,
        vec![(node("a"), OpIdentifier::new(3, 3)), (node("b"), OpIdentifier::new(2, 2))]
    );
    assert_eq!(get_state(&states, &node("b")), Some(OpIdentifier::new(2, 2)));
    assert_eq!(get_state(&states, &NodeHandle::new(Some(1), "b".to_string())), None);
    let mut into = vec![(node("c"), OpIdentifier::new(0, 0))];
    merge_states(&mut into, &states);
    assert_eq!(into.len(), 3);
    assert!(OpIdentifier::new(1, 9).is_before(&OpIdentifier::new(2, 0)));
    assert!(OpIdentifier::new(1, 1).is_before(&OpIdentifier::new(1, 2)));
    assert!(!OpIdentifier::new(1, 2).is_before(&OpIdentifier::new(1, 2)));
}

#[test]
fn operations_fan_out() {
    let writer = StateWriter::new(vec![], vec![]).unwrap();
    let mut manager =
        ProcessorChannelManager::new(node("p"), vec![(1, 3), (2, 1)], writer, false);
    manager.send(Operation::Insert { new: record(1, "a") }, 1).unwrap();
    let out = manager.take_outbox();
    assert_eq!(out.len(), 3);
    for (i, dispatch) in out.iter().enumerate() {
        assert_eq!(
            *dispatch,
            Dispatch {
                port: 1,
                sender: i,
                message: ExecutorOperation::Op { op: Operation::Insert { new: record(1, "a") } }
            }
        );
    }
    assert_eq!(
        manager.send(Operation::Insert { new: record(1, "a") }, 9),
        Err(ExecutionError::InvalidPortHandle(9))
    );
    manager.send_terminate().unwrap();
    manager.send_snapshotting_done().unwrap();
    let out = manager.take_outbox();
    assert_eq!(out.len(), 8);
    assert_eq!(out[0].message, ExecutorOperation::Terminate);
    assert_eq!(out[3], Dispatch { port: 2, sender: 0, message: ExecutorOperation::Terminate });
    assert_eq!(out[4].message, ExecutorOperation::SnapshottingDone);
    manager.store_and_send_commit(&Epoch::from(1, node("s"), 2, 3)).unwrap();
    assert_eq!(manager.take_outbox().len(), 4);
}

#[test]
fn commit_info_is_stored_by_source() {
    let mut writer = StateWriter::new(vec![(node("a"), OpIdentifier::new(1, 1))], vec![]).unwrap();
    let mut epoch = Epoch::from(1, node("b"), 5, 6);
    epoch.details.push((node("a"), OpIdentifier::new(2, 0)));
    writer.store_commit_info(&epoch).unwrap();
    assert_eq!(
        *writer.source_states(),
        vec![(node("a"), OpIdentifier::new(2, 0)), (node("b"), OpIdentifier::new(5, 6))]
    );
    assert_eq!(
        writer.store_op(Operation::Insert { new: record(1, "a") }, &3),
        Ok(Operation::Insert { new: record(1, "a") })
    );
}

#[test]
fn source_commits_by_size() {
    let mut s = source("s", 2, u64::MAX);
    let op = || Operation::Insert { new: record(1, "a") };
    assert_eq!(
        s.send_and_trigger_commit_if_needed(IngestionMessage::new_op(1, 1, op()), 1, false, 0),
        Ok(None)
    );
    assert_eq!(
        s.send_and_trigger_commit_if_needed(IngestionMessage::new_op(1, 2, op()), 1, false, 0),
        Ok(Some(EpochVote { request_termination: false, has_uncommitted: true }))
    );
    assert!(s.should_participate_in_commit(0));
    let decision = EpochDecision { terminating: false, epoch: Some(3), instant: 50 };
    assert_eq!(s.commit(decision), Ok(false));
    assert!(!s.should_participate_in_commit(60));
    let out = s.take_outbox();
    assert_eq!(
        out[2].message,
        ExecutorOperation::Commit { epoch: Epoch::from(3, node("s"), 1, 2) }
    );
    // The end of a snapshot forces a vote.
    assert_eq!(
        s.send_and_trigger_commit_if_needed(
            IngestionMessage::new_snapshotting_done(2, 0),
            1,
            true,
            60
        ),
        Ok(Some(EpochVote { request_termination: true, has_uncommitted: true }))
    );
    assert_eq!(
        s.commit(EpochDecision { terminating: true, epoch: None, instant: 61 }),
        Ok(true)
    );
    s.terminate().unwrap();
    let out = s.take_outbox();
    assert_eq!(out[0].message, ExecutorOperation::SnapshottingDone);
    assert_eq!(out[1].message, ExecutorOperation::Terminate);
    assert_eq!(
        s.send_and_trigger_commit_if_needed(IngestionMessage::new_op(1, 2, op()), 5, false, 0),
        Err(ExecutionError::InvalidPortHandle(5))
    );
}

#[test]
fn record_store_fills_in_the_old_record() {
    let mut writer = RecordWriter::new(vec![0]);
    let stored = writer.write(Operation::Insert { new: record(1, "first") }).unwrap();
    assert_eq!(stored, Operation::Insert { new: record(1, "first") });
    let old_only_key = Record::new(None, vec![Field::Int(1)], None);
    assert_eq!(
        writer.write(Operation::Update { old: old_only_key, new: record(1, "second") }),
        Ok(Operation::Update { old: record(1, "first"), new: record(1, "second") })
    );
    assert_eq!(writer.get(&Field::Int(1).encode()), Some(record(1, "second")));
    assert_eq!(
        writer.write(Operation::Delete { old: record(1, "whatever") }),
        Ok(Operation::Delete { old: record(1, "second") })
    );
    assert_eq!(
        writer.write(Operation::Delete { old: record(1, "whatever") }),
        Err(ExecutionError::RecordNotFound)
    );
    assert_eq!(
        writer.write(Operation::Insert { new: Record::new(None, vec![], None) }),
        Err(ExecutionError::InvalidOperation)
    );
}

#[test]
fn stateful_node_stores_before_it_sends() {
    let writer = StateWriter::new(vec![], vec![(1, RecordWriter::new(vec![0]))]).unwrap();
    let mut manager = ProcessorChannelManager::new(node("p"), vec![(1, 1)], writer, true);
    manager.send(Operation::Insert { new: record(1, "first") }, 1).unwrap();
    manager.send(Operation::Delete { old: record(1, "") }, 1).unwrap();
    let out = manager.take_outbox();
    assert_eq!(
        out[1].message,
        ExecutorOperation::Op { op: Operation::Delete { old: record(1, "first") } }
    );
    assert_eq!(
        manager.send(Operation::Delete { old: record(1, "") }, 1),
        Err(ExecutionError::RecordNotFound)
    );
}

#[test]
fn ingestor_is_a_queue() {
    let mut ingestor = Ingestor::new();
    assert_eq!(ingestor.next_message(), None);
    ingestor.handle_message(IngestionMessage::new_snapshotting_done(1, 1));
    ingestor.handle_message(IngestionMessage::new_snapshotting_done(1, 2));
    assert_eq!(ingestor.next_message(), Some(IngestionMessage::new_snapshotting_done(1, 1)));
    assert_eq!(ingestor.messages.len(), 1);
}
