use vstd::prelude::*;
use crate::address::Address;
use crate::diff::{
    balance_increased, balance_moved, diff_of, nonce_mismatch, AccountDiff, AnalyzeAccountDiff,
    StateDiff,
};
use crate::uint256::Uint256;

verus! {

/// What the logic reads of a fetched transaction.
#[derive(Clone, Copy, Debug, PartialEq, Eq)]
pub struct TxInfo {
    /// The sender.
    pub from: Address,
    /// The receiver; absent for a contract creation.
    pub to: Option<Address>,
    /// The sender's nonce used by the transaction.
    pub nonce: Uint256,
    /// The block that holds the transaction, once mined.
    pub block_number: Option<u64>,
}

/// The diff counts: the balance rose and the nonce is the one expected.
pub open spec fn gained(d: AccountDiff, expected: Option<Uint256>) -> bool {
    balance_increased(d) && !nonce_mismatch(d, expected)
}

/// The amount by which the receiver's diff yields a profit over a sender figure of
/// `sender_moved`, if it does.
pub open spec fn receiver_profit(
    tx: TxInfo,
    accounts: Seq<(Address, AccountDiff)>,
    sender_moved: nat,
) -> Option<nat> {
    match tx.to {
        Some(to) => match diff_of(accounts, to@) {
            Some(d) => if gained(d, None) && balance_moved(d) > sender_moved {
                Some(balance_moved(d))
            } else {
                None
            },
            None => None,
        },
        None => None,
    }
}

/// The profit of a transaction: the sender's gain where it counts, else the
/// receiver's where it counts and is strictly larger than the sender's figure.
pub open spec fn profit_of(tx: TxInfo, accounts: Seq<(Address, AccountDiff)>) -> Option<nat> {
    match diff_of(accounts, tx.from@) {
        None => None,
        Some(d) => if gained(d, Some(tx.nonce)) {
            Some(balance_moved(d))
        } else {
            receiver_profit(tx, accounts, balance_moved(d))
        },
    }
}

/// The profit that the state diff shows for the transaction, if any.
pub fn detect_profit(tx: &TxInfo, state_diff: &StateDiff) -> (r: Option<Uint256>)
    ensures
        match r {
            Some(p) => profit_of(*tx, state_diff.accounts@) == Some(p.value()),
            None => profit_of(*tx, state_diff.accounts@) is None,
        },
{
    if let Some(account_diff) = state_diff.get(&tx.from) {
        let from_diff = AnalyzeAccountDiff::run(&account_diff, Some(tx.nonce));
        if from_diff.increase_balance && !from_diff.invalid_nonce {
            return Some(from_diff.balance_diff);
        }
        if let Some(to) = tx.to {
            if let Some(account_diff) = state_diff.get(&to) {
                let to_diff = AnalyzeAccountDiff::run(&account_diff, None);
                if to_diff.increase_balance && !to_diff.invalid_nonce && to_diff.balance_diff.gt(
                    &from_diff.balance_diff,
                ) {
                    return Some(to_diff.balance_diff);
                }
            }
        }
    }
    None
}

/// The sender's gain is preferred: where it counts, it is the profit, whatever the
/// receiver did. Where it does not count (its balance did not rise, or its nonce is
/// not the expected one), the receiver's counted gain is the profit when it is
/// strictly larger than the sender's figure, and there is no profit otherwise.
pub proof fn lemma_profit_tie_break(
    tx: TxInfo,
    accounts: Seq<(Address, AccountDiff)>,
    sender: AccountDiff,
    receiver: AccountDiff,
)
    requires
        diff_of(accounts, tx.from@) == Some(sender),
        tx.to is Some,
        diff_of(accounts, tx.to->0@) == Some(receiver),
    ensures
        gained(sender, Some(tx.nonce)) ==> profit_of(tx, accounts) == Some(balance_moved(sender)),
        !gained(sender, Some(tx.nonce)) && gained(receiver, None) && balance_moved(receiver)
            > balance_moved(sender) ==> profit_of(tx, accounts) == Some(balance_moved(receiver)),
        !gained(sender, Some(tx.nonce)) && !(gained(receiver, None) && balance_moved(receiver)
            > balance_moved(sender)) ==> profit_of(tx, accounts) is None,
{
}

} // verus!
