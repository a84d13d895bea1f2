use vstd::prelude::*;
use crate::address::Address;
use crate::diff::StateDiff;
use crate::profit::{detect_profit, profit_of, TxInfo};
use crate::trace::{
    batch_view, plan_of, plan_view, substitute_of, trace_to_tx, well_formed_trace, ReplayView,
    ReplayableCall, TraceEntry, TraceError,
};
use crate::uint256::Uint256;

verus! {

/// A call trace of one transaction together with its state diff, either of which
/// the node may leave out.
#[derive(Debug)]
pub struct BlockTrace {
    pub trace: Option<Vec<TraceEntry>>,
    pub state_diff: Option<StateDiff>,
}

/// The block to trace a transaction at: the one before its own when rewinding, its
/// own otherwise, and the node's latest state for a transaction not yet mined.
pub fn trace_block(block_number: Option<u64>, rewind: bool) -> (r: Option<u64>)
    requires
        !(rewind && block_number == Some(0u64)),
    ensures
        r == match block_number {
            Some(b) => if rewind {
                Some((b - 1) as u64)
            } else {
                Some(b)
            },
            None => None,
        },
{
    match block_number {
        Some(b) => if rewind {
            Some(b - 1)
        } else {
            Some(b)
        },
        None => None,
    }
}

/// The profit that the trace's state diff shows, where it has one.
pub open spec fn trace_profit(tx: TxInfo, trace: BlockTrace) -> Option<nat> {
    match trace.state_diff {
        Some(sd) => profit_of(tx, sd.accounts@),
        None => None,
    }
}

/// Some batch of the plan holds a call.
pub open spec fn has_call(plan: Seq<Seq<ReplayView>>) -> bool {
    exists|i: int| 0 <= i < plan.len() && (#[trigger] plan[i]).len() > 0
}

/// Whether some batch of the plan holds a call.
pub fn any_call(plan: &Vec<Vec<ReplayableCall>>) -> (r: bool)
    ensures
        r == has_call(plan_view(plan@)),
{
    let mut i: usize = 0;
    while i < plan.len()
        invariant
            i <= plan@.len(),
            forall|j: int| 0 <= j < i ==> plan@[j]@.len() == 0,
        decreases plan@.len() - i,
    {
        if plan[i].len() > 0 {
            assert(plan_view(plan@)[i as int].len() > 0);
            return true;
        }
        i += 1;
    }
    assert forall|j: int| 0 <= j < plan_view(plan@).len() implies #[trigger] plan_view(
        plan@,
    )[j].len() == 0 by {
        assert(plan_view(plan@)[j] == batch_view(plan@[j]));
    }
    false
}

/// Decides what a traced transaction is worth replaying: where its state diff shows a
/// profit and its call trace yields a replayable call, the call plan (see
/// [`trace_to_tx`]) and the profit; `Ok(None)` where there is no profit, no trace, or
/// no call to replay.
pub fn simulate_trace(
    tx: &TxInfo,
    trace: &BlockTrace,
    signer: &Address,
    contract: &Option<Address>,
) -> (r: Result<Option<(Vec<Vec<ReplayableCall>>, Uint256)>, TraceError>)
    ensures
        trace_profit(*tx, *trace) is None ==> r is Ok && r->Ok_0 is None,
        trace_profit(*tx, *trace) is Some && trace.trace is None ==> r is Ok && r->Ok_0 is None,
        trace_profit(*tx, *trace) is Some && trace.trace is Some ==> match r {
            Ok(Some((plan, profit))) => {
                &&& well_formed_trace(trace.trace->0@)
                &&& plan_view(plan@) == plan_of(
                    trace.trace->0@,
                    signer@,
                    substitute_of(*signer, *contract),
                )
                &&& has_call(plan_view(plan@))
                &&& Some(profit.value()) == trace_profit(*tx, *trace)
            },
            Ok(None) => well_formed_trace(trace.trace->0@) && !has_call(
                plan_of(trace.trace->0@, signer@, substitute_of(*signer, *contract)),
            ),
            Err(_) => !well_formed_trace(trace.trace->0@),
        },
{
    let profit = match &trace.state_diff {
        Some(sd) => match detect_profit(tx, sd) {
            Some(p) => p,
            None => {
                return Ok(None);
            },
        },
        None => {
            return Ok(None);
        },
    };
    let plan = match &trace.trace {
        Some(entries) => match trace_to_tx(entries, signer, contract) {
            Ok(plan) => plan,
            Err(e) => {
                return Err(e);
            },
        },
        None => Vec::new(),
    };
    if any_call(&plan) {
        Ok(Some((plan, profit)))
    } else {
        Ok(None)
    }
}

} // verus!
