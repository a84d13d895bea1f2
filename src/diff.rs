use vstd::prelude::*;
use crate::address::Address;
use crate::uint256::Uint256;

verus! {

/// How one field of an account changed while a transaction ran.
#[derive(Clone, Copy, Debug, PartialEq, Eq)]
pub enum Diff {
    /// No change.
    Same,
    /// The value was set where none was.
    Born(Uint256),
    /// The value was removed.
    Died(Uint256),
    /// The value went from `from` to `to`.
    Changed { from: Uint256, to: Uint256 },
}

/// The balance and nonce of one account before and after a transaction.
#[derive(Clone, Copy, Debug, PartialEq, Eq)]
pub struct AccountDiff {
    pub balance: Diff,
    pub nonce: Diff,
}

/// Per-account diffs of one traced transaction. A node lists each address once
/// ([`StateDiff::wf`]); lookups take the first entry with the address, which on a
/// well-formed value is the only one.
#[derive(Debug)]
pub struct StateDiff {
    pub accounts: Vec<(Address, AccountDiff)>,
}

/// The diff recorded for `addr`: the first entry with that address.
pub open spec fn diff_of(accounts: Seq<(Address, AccountDiff)>, addr: Seq<u8>) -> Option<AccountDiff>
    decreases accounts.len(),
{
    if accounts.len() == 0 {
        None
    } else if accounts[0].0@ == addr {
        Some(accounts[0].1)
    } else {
        diff_of(accounts.drop_first(), addr)
    }
}

/// No address is listed twice.
pub open spec fn distinct_addresses(accounts: Seq<(Address, AccountDiff)>) -> bool {
    forall|i: int, j: int|
        0 <= i < accounts.len() && 0 <= j < accounts.len() && i != j ==> accounts[i].0@
            != accounts[j].0@
}

proof fn lemma_diff_of_entry(accounts: Seq<(Address, AccountDiff)>, i: int)
    requires
        distinct_addresses(accounts),
        0 <= i < accounts.len(),
    ensures
        diff_of(accounts, accounts[i].0@) == Some(accounts[i].1),
    decreases accounts.len(),
{
    if i > 0 {
        let rest = accounts.drop_first();
        assert(accounts[0].0@ != accounts[i].0@);
        assert(rest[i - 1] == accounts[i]);
        assert(distinct_addresses(rest)) by {
            assert forall|a: int, b: int|
                0 <= a < rest.len() && 0 <= b < rest.len() && a != b implies rest[a].0@
                != rest[b].0@ by {
                assert(rest[a] == accounts[a + 1] && rest[b] == accounts[b + 1]);
            }
        }
        lemma_diff_of_entry(rest, i - 1);
    }
}

proof fn lemma_diff_of_absent(accounts: Seq<(Address, AccountDiff)>, addr: Seq<u8>)
    requires
        forall|i: int| 0 <= i < accounts.len() ==> accounts[i].0@ != addr,
    ensures
        diff_of(accounts, addr) is None,
    decreases accounts.len(),
{
    if accounts.len() > 0 {
        let rest = accounts.drop_first();
        assert forall|i: int| 0 <= i < rest.len() implies rest[i].0@ != addr by {
            assert(rest[i] == accounts[i + 1]);
        }
        lemma_diff_of_absent(rest, addr);
    }
}

impl StateDiff {
    /// Each address is listed once, as in the node's map from address to diff.
    pub open spec fn wf(&self) -> bool {
        distinct_addresses(self.accounts@)
    }

    /// On a well-formed value, the diff of a listed address is its entry's diff, and
    /// an address that is not listed has none.
    pub proof fn lemma_lookup(&self, addr: Seq<u8>)
        requires
            self.wf(),
        ensures
            forall|i: int|
                0 <= i < self.accounts@.len() && #[trigger] self.accounts@[i].0@ == addr ==> diff_of(
                    self.accounts@,
                    addr,
                ) == Some(self.accounts@[i].1),
            (forall|i: int| 0 <= i < self.accounts@.len() ==> self.accounts@[i].0@ != addr)
                ==> diff_of(self.accounts@, addr) is None,
    {
        assert forall|i: int|
            0 <= i < self.accounts@.len() && #[trigger] self.accounts@[i].0@ == addr implies diff_of(
            self.accounts@,
            addr,
        ) == Some(self.accounts@[i].1) by {
            lemma_diff_of_entry(self.accounts@, i);
        }
        if forall|i: int| 0 <= i < self.accounts@.len() ==> self.accounts@[i].0@ != addr {
            lemma_diff_of_absent(self.accounts@, addr);
        }
    }

    /// The diff recorded for `addr`, if any.
    pub fn get(&self, addr: &Address) -> (r: Option<AccountDiff>)
        ensures
            r == diff_of(self.accounts@, addr@),
    {
        let mut i: usize = 0;
        assert(self.accounts@.skip(0) =~= self.accounts@);
        while i < self.accounts.len()
            invariant
                i <= self.accounts@.len(),
                diff_of(self.accounts@, addr@) == diff_of(self.accounts@.skip(i as int), addr@),
            decreases self.accounts@.len() - i,
        {
            assert(self.accounts@.skip(i as int).drop_first() =~= self.accounts@.skip(i + 1));
            if self.accounts[i].0.same(addr) {
                return Some(self.accounts[i].1);
            }
            i += 1;
        }
        None
    }
}

/// What one account's diff says about a transaction.
#[derive(Clone, Copy, Debug, PartialEq, Eq)]
pub struct AnalyzeAccountDiff {
    /// The balance changed upwards.
    pub increase_balance: bool,
    /// How far the balance moved, in either direction; zero where it did not change.
    pub balance_diff: Uint256,
    /// The nonce before the transaction is not the one expected of it.
    pub invalid_nonce: bool,
}

/// The balance rose.
pub open spec fn balance_increased(d: AccountDiff) -> bool {
    match d.balance {
        Diff::Changed { from, to } => to.value() > from.value(),
        _ => false,
    }
}

/// How far the balance moved: `|to - from|`, or zero where it did not change.
pub open spec fn balance_moved(d: AccountDiff) -> nat {
    match d.balance {
        Diff::Changed { from, to } => if to.value() >= from.value() {
            (to.value() - from.value()) as nat
        } else {
            (from.value() - to.value()) as nat
        },
        _ => 0,
    }
}

/// The nonce before the transaction differs from the one expected, where one is expected.
pub open spec fn nonce_mismatch(d: AccountDiff, expected: Option<Uint256>) -> bool {
    match (d.nonce, expected) {
        (Diff::Changed { from, to: _ }, Some(n)) => from.value() != n.value(),
        _ => false,
    }
}

impl AnalyzeAccountDiff {
    /// Reads one account's diff, against the nonce the account was expected to have
    /// before the transaction, if any.
    pub fn run(diff: &AccountDiff, nonce: Option<Uint256>) -> (r: Self)
        ensures
            r.increase_balance == balance_increased(*diff),
            r.balance_diff.value() == balance_moved(*diff),
            r.invalid_nonce == nonce_mismatch(*diff, nonce),
    {
        let mut increase_balance = false;
        let mut balance_diff = Uint256::zero();
        if let Diff::Changed { from, to } = diff.balance {
            increase_balance = to.gt(&from);
            balance_diff = from.abs_diff(&to);
        }
        // A nonce that differs from the expected one means the transaction did not run
        // as assumed (already included, replaced by another); its balance diff is then
        // not to be trusted either.
        let invalid_nonce = match (diff.nonce, nonce) {
            (Diff::Changed { from, to: _ }, Some(n)) => !from.eq_value(&n),
            _ => false,
        };
        AnalyzeAccountDiff { increase_balance, balance_diff, invalid_nonce }
    }
}

/// For a changed balance, the analyzer reports an increase exactly when `to > from`,
/// and a magnitude of `|to - from|`; an unchanged amount (`from == to`) gives no
/// increase and a magnitude of zero.
pub proof fn lemma_analyzer_sign(d: AccountDiff, from: Uint256, to: Uint256)
    requires
        d.balance == (Diff::Changed { from, to }),
    ensures
        balance_increased(d) == (to.value() > from.value()),
        balance_moved(d) == if to.value() >= from.value() {
            to.value() - from.value()
        } else {
            from.value() - to.value()
        },
        to.value() == from.value() ==> !balance_increased(d) && balance_moved(d) == 0,
{
}

/// With an expected nonce that differs from the recorded nonce before the
/// transaction, the nonce is flagged, whatever the balance did; with no expected
/// nonce it never is.
pub proof fn lemma_nonce_gating(d: AccountDiff, expected: Option<Uint256>, from: Uint256, to: Uint256)
    ensures
        expected is None ==> !nonce_mismatch(d, expected),
        d.nonce == (Diff::Changed { from, to }) && expected is Some && from.value()
            != expected->0.value() ==> nonce_mismatch(d, expected),
{
}

} // verus!
