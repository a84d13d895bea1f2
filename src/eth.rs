use vstd::prelude::*;
use crate::profit::{detect_profit, profit_of, TxInfo};
use crate::simulate::BlockTrace;
use crate::uint256::Uint256;

verus! {

/// Whether the transaction made a native-token profit, and how much: the profit that
/// the trace's state diff shows (see [`detect_profit`]), and `None` without a state diff.
pub fn run(tx: &TxInfo, trace: &BlockTrace) -> (r: Option<Uint256>)
    ensures
        match trace.state_diff {
            Some(sd) => match r {
                Some(p) => profit_of(*tx, sd.accounts@) == Some(p.value()),
                None => profit_of(*tx, sd.accounts@) is None,
            },
            None => r is None,
        },
{
    match &trace.state_diff {
        Some(sd) => detect_profit(tx, sd),
        None => None,
    }
}

} // verus!
