use vstd::prelude::*;

use crate::engine::{EngineState, MatchingEngine};
use crate::engine_model::EngineModel;
use crate::risk::accounts_view;
use crate::types::EngineCommand;

verus! {

/// One entry of the command log: a command and its position in the log.
#[derive(Debug, Clone, Copy, PartialEq, Eq, Structural)]
pub struct CommandRecord {
    pub index: u64,
    pub command: EngineCommand,
}

/// A snapshot file: the engine's state and the last log entry it includes.
#[derive(Debug, Clone, PartialEq, Eq)]
pub struct SnapshotRecord {
    pub last_log_index: u64,
    pub state: EngineState,
}

/// The engine and last applied index after the log is replayed from `last`: entries at or
/// before `last` are already in the engine and are skipped, the others are applied in
/// order. `None` where a command cannot be applied (see `EngineModel::apply`).
pub open spec fn replay(e: EngineModel, records: Seq<CommandRecord>, last: u64) -> Option<(EngineModel, u64)>
    decreases records.len(),
{
    if records.len() == 0 {
        Some((e, last))
    } else {
        let r = records[0];
        let rest = records.subrange(1, records.len() as int);
        if r.index > last {
            match e.apply(r.command) {
                None => None,
                Some((e1, _)) => replay(e1, rest, r.index),
            }
        } else {
            replay(e, rest, last)
        }
    }
}

/// The engine and last applied index that a store holds: the snapshot's state (an empty
/// engine where there is none) with the log replayed after it.
pub open spec fn recovered_store(snapshot: Option<SnapshotRecord>, records: Seq<CommandRecord>) -> Option<(EngineModel, u64)> {
    match snapshot {
        None => replay(EngineModel::bare(Map::empty(), 0), records, 0),
        Some(s) => match EngineModel::recovered(
            s.state.live_orders@,
            accounts_view(s.state.accounts@),
            s.state.next_global_sequence,
        ) {
            None => None,
            Some(e) => replay(e, records, s.last_log_index),
        },
    }
}

/// Replays the log into `engine`: entries after `last_log_index` are applied in order.
/// Returns the index of the last entry applied (or `last_log_index`), or `None` where a
/// command cannot be applied.
pub fn replay_log(engine: &mut MatchingEngine, records: &Vec<CommandRecord>, last_log_index: u64) -> (r: Option<u64>)
    requires
        old(engine).wf(),
    ensures
        final(engine).wf(),
        r is None <==> replay(old(engine)@, records@, last_log_index) is None,
        r matches Some(last) ==> replay(old(engine)@, records@, last_log_index) == Some((final(engine)@, last)),
{
    let ghost whole = replay(engine@, records@, last_log_index);
    let mut last = last_log_index;
    let mut i: usize = 0;
    assert(records@.subrange(0, records@.len() as int) =~= records@);
    while i < records.len()
        invariant
            engine.wf(),
            i <= records@.len(),
            whole == replay(old(engine)@, records@, last_log_index),
            whole == replay(engine@, records@.subrange(i as int, records@.len() as int), last),
        decreases records@.len() - i,
    {
        let record = records[i];
        proof {
            let rest = records@.subrange(i as int, records@.len() as int);
            assert(rest[0] == record);
            assert(rest.subrange(1, rest.len() as int) =~= records@.subrange(i + 1, records@.len() as int));
        }
        if record.index > last {
            match engine.checked_apply(record.command) {
                None => {
                    return None;
                },
                Some(_) => {},
            }
            last = record.index;
        }
        i = i + 1;
    }
    assert(records@.subrange(i as int, records@.len() as int) =~= Seq::<CommandRecord>::empty());
    Some(last)
}

/// Rebuilds the engine of a store from its snapshot, if any, and its log: the state that a
/// restart recovers. `None` where the snapshot cannot be restored or a logged command
/// cannot be applied.
pub fn recover_engine(snapshot: Option<SnapshotRecord>, records: &Vec<CommandRecord>) -> (r: Option<(MatchingEngine, u64)>)
    ensures
        r is None <==> recovered_store(snapshot, records@) is None,
        r matches Some((engine, last)) ==> engine.wf() && recovered_store(snapshot, records@) == Some((engine@, last)),
{
    let (mut engine, last) = match snapshot {
        None => {
            let engine = MatchingEngine::new();
            proof {
                assert(engine@ == EngineModel::bare(Map::empty(), 0));
            }
            (engine, 0)
        },
        Some(s) => {
            let last = s.last_log_index;
            match MatchingEngine::try_from_state(s.state) {
                None => {
                    return None;
                },
                Some(engine) => (engine, last),
            }
        },
    };
    match replay_log(&mut engine, records, last) {
        None => None,
        Some(last) => Some((engine, last)),
    }
}

} // verus!
