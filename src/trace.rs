use vstd::prelude::*;
use crate::address::Address;
use crate::rewrite::{mock_tx_data, rewritten_data};
use crate::uint256::Uint256;
use std::collections::HashMap;

verus! {

broadcast use vstd::std_specs::hash::group_hash_axioms;

/// 2^e.
pub open spec fn two_pow(e: nat) -> nat
    decreases e,
{
    if e == 0 {
        1
    } else {
        2 * two_pow((e - 1) as nat)
    }
}

/// The key of `path` counted over its last `j` elements: the element `i` places
/// from the end adds `element * 2^i + 1`.
pub open spec fn key_from(path: Seq<usize>, j: nat) -> nat
    decreases j,
{
    if j == 0 || j > path.len() {
        0
    } else {
        key_from(path, (j - 1) as nat) + path[path.len() - j] as nat * two_pow((j - 1) as nat) + 1
    }
}

/// The integer key of a position in the call tree.
pub open spec fn path_key(path: Seq<usize>) -> nat {
    key_from(path, path.len())
}

proof fn lemma_key_from_grows(path: Seq<usize>, i: nat, j: nat)
    requires
        i <= j <= path.len(),
    ensures
        key_from(path, i) <= key_from(path, j),
    decreases j - i,
{
    if i < j {
        lemma_key_from_grows(path, i, (j - 1) as nat);
    }
}

proof fn lemma_two_pow_positive(e: nat)
    ensures
        two_pow(e) >= 1,
    decreases e,
{
    if e > 0 {
        lemma_two_pow_positive((e - 1) as nat);
    }
}

/// Every index of the path is 0 or 1.
pub open spec fn binary_path(p: Seq<usize>) -> bool {
    forall|i: int| 0 <= i < p.len() ==> p[i] <= 1
}

proof fn lemma_binary_key_bounds(p: Seq<usize>, j: nat)
    requires
        binary_path(p),
        j <= p.len(),
    ensures
        j <= key_from(p, j) < j + two_pow(j),
    decreases j,
{
    if j > 0 {
        lemma_binary_key_bounds(p, (j - 1) as nat);
        let d = p[p.len() - j];
        assert(d as nat * two_pow((j - 1) as nat) <= two_pow((j - 1) as nat)) by (nonlinear_arith)
            requires
                d <= 1,
        ;
    }
}

proof fn lemma_binary_key_unique(p: Seq<usize>, q: Seq<usize>, j: nat)
    requires
        binary_path(p),
        binary_path(q),
        p.len() == q.len(),
        j <= p.len(),
        key_from(p, j) == key_from(q, j),
    ensures
        forall|i: int| p.len() - j <= i < p.len() ==> p[i] == q[i],
    decreases j,
{
    if j > 0 {
        let n = p.len();
        let w = two_pow((j - 1) as nat);
        lemma_binary_key_bounds(p, (j - 1) as nat);
        lemma_binary_key_bounds(q, (j - 1) as nat);
        let a = p[n - j];
        let b = q[n - j];
        assert(a == 0 ==> a as nat * w == 0) by (nonlinear_arith);
        assert(a == 1 ==> a as nat * w == w) by (nonlinear_arith);
        assert(b == 0 ==> b as nat * w == 0) by (nonlinear_arith);
        assert(b == 1 ==> b as nat * w == w) by (nonlinear_arith);
        assert(a == b);
        lemma_binary_key_unique(p, q, (j - 1) as nat);
    }
}

/// The key encoding: the root's empty path has key 0 and every other path a key of
/// at least 1, so the root never shares its key; the `i`-th direct child of the root
/// (path `[i]`) has key `i + 1`, so direct children never share keys; and two
/// distinct paths of the same depth whose indices are all 0 or 1 have distinct keys.
/// Paths of other shapes may share a key: `[1]` and `[0, 0]` both have key 2.
pub proof fn lemma_key_encoding(p: Seq<usize>, q: Seq<usize>)
    ensures
        path_key(Seq::<usize>::empty()) == 0,
        p.len() > 0 ==> path_key(p) >= 1,
        p.len() == 1 ==> path_key(p) == p[0] + 1,
        p.len() == 1 && q.len() == 1 && p != q ==> path_key(p) != path_key(q),
        p.len() == q.len() && binary_path(p) && binary_path(q) && p != q ==> path_key(p)
            != path_key(q),
{
    if p.len() > 0 {
        lemma_key_from_grows(p, 1, p.len());
    }
    assert(two_pow(0) == 1);
    if p.len() == 1 {
        assert(key_from(p, 1) == key_from(p, 0) + p[0] as nat * two_pow(0) + 1);
    }
    if q.len() == 1 {
        assert(key_from(q, 1) == key_from(q, 0) + q[0] as nat * two_pow(0) + 1);
    }
    if p.len() == 1 && q.len() == 1 && p != q {
        assert(p[0] != q[0]) by {
            if p[0] == q[0] {
                assert(p =~= q);
            }
        }
    }
    if p.len() == q.len() && binary_path(p) && binary_path(q) && path_key(p) == path_key(q) {
        lemma_binary_key_unique(p, q, p.len());
        assert(p =~= q);
    }
}

/// The key of a position in the call tree, or `None` where it does not fit in a `usize`.
pub fn trace_key(path: &Vec<usize>) -> (r: Option<usize>)
    ensures
        match r {
            Some(k) => k as nat == path_key(path@),
            None => path_key(path@) > usize::MAX,
        },
{
    let n = path.len();
    let mut key: usize = 0;
    let mut pw: usize = 1;
    let mut pw_fits = true;
    let mut i: usize = 0;
    while i < n
        invariant
            n == path@.len(),
            i <= n,
            key as nat == key_from(path@, i as nat),
            pw_fits ==> pw as nat == two_pow(i as nat),
            !pw_fits ==> two_pow(i as nat) > usize::MAX,
        decreases n - i,
    {
        let v = path[n - 1 - i];
        let ghost next = key_from(path@, (i + 1) as nat);
        assert(next == key + v * two_pow(i as nat) + 1);
        proof {
            lemma_key_from_grows(path@, (i + 1) as nat, n as nat);
        }
        let term: usize;
        if v == 0 {
            term = 0;
        } else if !pw_fits {
            assert(v * two_pow(i as nat) >= two_pow(i as nat)) by (nonlinear_arith)
                requires
                    v >= 1,
            ;
            return None;
        } else {
            match v.checked_mul(pw) {
                Some(t) => {
                    term = t;
                },
                None => {
                    return None;
                },
            }
        }
        assert(term == v * two_pow(i as nat)) by (nonlinear_arith)
            requires
                v == 0 ==> term == 0,
                v != 0 ==> pw_fits && term == v * pw && pw == two_pow(i as nat),
        ;
        if key > usize::MAX - term || key + term > usize::MAX - 1 {
            return None;
        }
        key = key + term + 1;
        if pw_fits {
            if pw <= usize::MAX / 2 {
                pw = pw * 2;
            } else {
                pw_fits = false;
            }
        } else {
            proof {
                lemma_two_pow_positive(i as nat);
            }
        }
        i += 1;
    }
    Some(key)
}

/// A call recorded in a trace.
#[derive(Debug, PartialEq, Eq)]
pub struct CallAction {
    /// The caller.
    pub from: Address,
    /// The callee.
    pub to: Address,
    pub value: Uint256,
    pub input: Vec<u8>,
}

/// A contract creation recorded in a trace.
#[derive(Debug, PartialEq, Eq)]
pub struct CreateAction {
    /// The creator.
    pub from: Address,
    pub value: Uint256,
    pub init: Vec<u8>,
}

/// What a trace entry did.
#[derive(Debug, PartialEq, Eq)]
pub enum Action {
    Call(CallAction),
    Create(CreateAction),
    /// Any other kind of entry (a self-destruct, a reward), which cannot be replayed.
    Other,
}

/// One node of a transaction's call tree.
#[derive(Debug, PartialEq, Eq)]
pub struct TraceEntry {
    /// The child indices that lead from the root to this node; empty for the root.
    pub trace_address: Vec<usize>,
    /// The number of direct children.
    pub subtraces: usize,
    pub action: Action,
}

/// A call that can be sent again: gas, gas price and nonce are left to the sender.
#[derive(Debug, PartialEq, Eq)]
pub struct ReplayableCall {
    pub from: Address,
    /// The callee; absent for a contract creation.
    pub to: Option<Address>,
    pub data: Vec<u8>,
    pub value: Uint256,
}

/// A [`ReplayableCall`] as plain values.
pub struct ReplayView {
    pub from: Seq<u8>,
    pub to: Option<Seq<u8>>,
    pub data: Seq<u8>,
    pub value: nat,
}

impl View for ReplayableCall {
    type V = ReplayView;

    open spec fn view(&self) -> ReplayView {
        ReplayView {
            from: self.from@,
            to: match self.to {
                Some(a) => Some(a@),
                None => None,
            },
            data: self.data@,
            value: self.value.value(),
        }
    }
}

/// Why a trace could not be turned into a call plan.
#[derive(Debug, Clone, Copy, PartialEq, Eq)]
pub enum TraceError {
    /// The root entry, or a direct child that the root declares, is missing.
    MalformedTrace,
}

/// The address written into replayed call data: the contract where one is set,
/// else the signer.
pub open spec fn substitute_of(signer: Address, contract: Option<Address>) -> Seq<u8> {
    match contract {
        Some(c) => c@,
        None => signer@,
    }
}

/// The call that replays `action` from `signer`, with `substitute` written over
/// the traced caller's address in the data; `None` for an action of another kind.
pub open spec fn replay_of(action: Action, signer: Seq<u8>, substitute: Seq<u8>) -> Option<
    ReplayView,
> {
    match action {
        Action::Call(c) => Some(
            ReplayView {
                from: signer,
                to: Some(c.to@),
                data: rewritten_data(c.input@, c.from@, substitute),
                value: c.value.value(),
            },
        ),
        Action::Create(c) => Some(
            ReplayView {
                from: signer,
                to: None,
                data: rewritten_data(c.init@, c.from@, substitute),
                value: c.value.value(),
            },
        ),
        Action::Other => None,
    }
}

/// Turns one trace entry into a call that `signer` can send, writing the contract
/// (or, without one, the signer) over the traced caller's address in the data.
pub fn parse_tx_trace(entry: &TraceEntry, signer: &Address, contract: &Option<Address>) -> (r:
    Option<ReplayableCall>)
    ensures
        match r {
            Some(c) => replay_of(entry.action, signer@, substitute_of(*signer, *contract))
                == Some(c@),
            None => replay_of(entry.action, signer@, substitute_of(*signer, *contract)) is None,
        },
{
    let substitute = match contract {
        Some(c) => *c,
        None => *signer,
    };
    match &entry.action {
        Action::Call(data) => Some(
            ReplayableCall {
                from: *signer,
                to: Some(data.to),
                data: mock_tx_data(&data.input, &data.from, &substitute),
                value: data.value,
            },
        ),
        Action::Create(data) => Some(
            ReplayableCall {
                from: *signer,
                to: None,
                data: mock_tx_data(&data.init, &data.from, &substitute),
                value: data.value,
            },
        ),
        Action::Other => None,
    }
}

/// The entry is the root or a direct child of it.
pub open spec fn shallow(e: TraceEntry) -> bool {
    e.trace_address@.len() <= 1
}

/// The index of the last of the first `n` entries that is the root or a direct child
/// of it and whose key is `k`.
pub open spec fn last_with_key(entries: Seq<TraceEntry>, k: nat, n: int) -> Option<int>
    decreases n,
{
    if n <= 0 || n > entries.len() {
        None
    } else if shallow(entries[n - 1]) && path_key(entries[n - 1].trace_address@) == k {
        Some(n - 1)
    } else {
        last_with_key(entries, k, n - 1)
    }
}

proof fn lemma_last_with_key_range(entries: Seq<TraceEntry>, k: nat, n: int)
    ensures
        match last_with_key(entries, k, n) {
            Some(i) => 0 <= i < n && i < entries.len() && shallow(entries[i]) && path_key(
                entries[i].trace_address@,
            ) == k,
            None => true,
        },
    decreases n,
{
    if n > 0 && n <= entries.len() {
        lemma_last_with_key_range(entries, k, n - 1);
    }
}

/// The entry that key `k` maps to: among the root and its direct children, whose keys
/// are `0` for the root and `i + 1` for the child at `[i]`, the last one with that key.
/// Deeper entries are never looked up, so they take no key.
pub open spec fn entry_at(entries: Seq<TraceEntry>, k: nat) -> Option<int> {
    last_with_key(entries, k, entries.len() as int)
}

/// The root is present and so is each of its declared direct children.
pub open spec fn well_formed_trace(entries: Seq<TraceEntry>) -> bool {
    &&& entry_at(entries, 0) is Some
    &&& forall|i: nat|
        1 <= i <= entries[entry_at(entries, 0)->0].subtraces ==> (#[trigger] entry_at(
            entries,
            i,
        )) is Some
}

/// The replayable calls among the entries at keys `1..=k`, in key order.
pub open spec fn child_calls(entries: Seq<TraceEntry>, k: nat, signer: Seq<u8>, substitute: Seq<
    u8,
>) -> Seq<ReplayView>
    decreases k,
{
    if k == 0 {
        seq![]
    } else {
        let earlier = child_calls(entries, (k - 1) as nat, signer, substitute);
        match entry_at(entries, k) {
            Some(idx) => match replay_of(entries[idx].action, signer, substitute) {
                Some(c) => earlier.push(c),
                None => earlier,
            },
            None => earlier,
        }
    }
}

/// The call plan of a well-formed trace: the root's call alone (or nothing, where it
/// cannot be replayed), then, where there are any, the replayable direct children.
pub open spec fn plan_of(entries: Seq<TraceEntry>, signer: Seq<u8>, substitute: Seq<u8>) -> Seq<
    Seq<ReplayView>,
> {
    let root = entries[entry_at(entries, 0)->0];
    let first = match replay_of(root.action, signer, substitute) {
        Some(c) => seq![c],
        None => seq![],
    };
    let children = child_calls(entries, root.subtraces as nat, signer, substitute);
    if children.len() > 0 {
        seq![first, children]
    } else {
        seq![first]
    }
}

/// The action can be replayed: it is a call or a creation.
pub open spec fn replayable(a: Action) -> bool {
    !(a is Other)
}

/// The replayed call of the entry at key `k`.
pub open spec fn call_at(entries: Seq<TraceEntry>, k: nat, signer: Seq<u8>, substitute: Seq<u8>) -> ReplayView {
    replay_of(entries[entry_at(entries, k)->0].action, signer, substitute)->0
}

proof fn lemma_child_calls_all(
    entries: Seq<TraceEntry>,
    k: nat,
    n: nat,
    signer: Seq<u8>,
    substitute: Seq<u8>,
)
    requires
        k <= n,
        forall|i: nat|
            1 <= i <= n ==> (#[trigger] entry_at(entries, i)) is Some && replayable(
                entries[entry_at(entries, i)->0].action,
            ),
    ensures
        child_calls(entries, k, signer, substitute) == Seq::new(
            k,
            |i: int| call_at(entries, (i + 1) as nat, signer, substitute),
        ),
    decreases k,
{
    if k > 0 {
        lemma_child_calls_all(entries, (k - 1) as nat, n, signer, substitute);
        assert(entry_at(entries, k) is Some);
        assert(child_calls(entries, k, signer, substitute) =~= Seq::new(
            k,
            |i: int| call_at(entries, (i + 1) as nat, signer, substitute),
        ));
    }
}

/// Where the root and all of its `N >= 1` declared direct children are calls or
/// creations, the plan has exactly two batches: the root's call, then the calls of
/// the children at keys `1..=N`, in that order.
pub proof fn lemma_happy_path_plan(entries: Seq<TraceEntry>, signer: Seq<u8>, substitute: Seq<u8>)
    requires
        well_formed_trace(entries),
        entries[entry_at(entries, 0)->0].subtraces >= 1,
        replayable(entries[entry_at(entries, 0)->0].action),
        forall|i: nat|
            1 <= i <= entries[entry_at(entries, 0)->0].subtraces ==> replayable(
                entries[(#[trigger] entry_at(entries, i))->0].action,
            ),
    ensures
        plan_of(entries, signer, substitute).len() == 2,
        plan_of(entries, signer, substitute)[0] == seq![call_at(entries, 0, signer, substitute)],
        plan_of(entries, signer, substitute)[1] == Seq::new(
            entries[entry_at(entries, 0)->0].subtraces as nat,
            |i: int| call_at(entries, (i + 1) as nat, signer, substitute),
        ),
{
    let n = entries[entry_at(entries, 0)->0].subtraces as nat;
    lemma_child_calls_all(entries, n, n, signer, substitute);
}

proof fn lemma_last_with_key_unique(entries: Seq<TraceEntry>, idx: int, k: nat, n: int)
    requires
        0 <= idx < n <= entries.len(),
        shallow(entries[idx]),
        path_key(entries[idx].trace_address@) == k,
        forall|j: int|
            0 <= j < entries.len() && j != idx && shallow(#[trigger] entries[j]) ==> path_key(
                entries[j].trace_address@,
            ) != k,
    ensures
        last_with_key(entries, k, n) == Some(idx),
    decreases n,
{
    if n - 1 != idx {
        lemma_last_with_key_unique(entries, idx, k, n - 1);
    }
}

/// No two entries share a path.
pub open spec fn distinct_paths(entries: Seq<TraceEntry>) -> bool {
    forall|i: int, j: int|
        0 <= i < entries.len() && 0 <= j < entries.len() && i != j ==> entries[i].trace_address@
            != entries[j].trace_address@
}

proof fn lemma_shallow_keys_differ(entries: Seq<TraceEntry>, a: int, b: int)
    requires
        distinct_paths(entries),
        0 <= a < entries.len(),
        0 <= b < entries.len(),
        a != b,
        shallow(entries[a]),
        shallow(entries[b]),
    ensures
        path_key(entries[a].trace_address@) != path_key(entries[b].trace_address@),
{
    let p = entries[a].trace_address@;
    let q = entries[b].trace_address@;
    lemma_key_encoding(p, q);
    lemma_key_encoding(q, p);
    if p.len() == 0 && q.len() == 0 {
        assert(p =~= q);
    }
    if p.len() == 0 {
        assert(p =~= Seq::<usize>::empty());
    }
    if q.len() == 0 {
        assert(q =~= Seq::<usize>::empty());
    }
}

/// Where no two entries share a path, the root and the direct children of it have
/// distinct keys, so the entry that a key maps to is the one entry of depth at most
/// one with that key.
pub proof fn lemma_entry_at_by_key(entries: Seq<TraceEntry>, idx: int)
    requires
        distinct_paths(entries),
        0 <= idx < entries.len(),
        shallow(entries[idx]),
    ensures
        entry_at(entries, path_key(entries[idx].trace_address@)) == Some(idx),
{
    assert forall|j: int|
        0 <= j < entries.len() && j != idx && shallow(#[trigger] entries[j]) implies path_key(
        entries[j].trace_address@,
    ) != path_key(entries[idx].trace_address@) by {
        lemma_shallow_keys_differ(entries, j, idx);
    }
    lemma_last_with_key_unique(
        entries,
        idx,
        path_key(entries[idx].trace_address@),
        entries.len() as int,
    );
}

/// Every entry that a key maps to is the root or a direct child of it, so every
/// call of a plan comes from such an entry.
pub proof fn lemma_entry_at_shallow(entries: Seq<TraceEntry>, k: nat)
    ensures
        match entry_at(entries, k) {
            Some(i) => 0 <= i < entries.len() && shallow(entries[i]) && path_key(
                entries[i].trace_address@,
            ) == k,
            None => true,
        },
{
    lemma_last_with_key_range(entries, k, entries.len() as int);
}

/// Where no two entries share a path, the entry whose path is empty is the root: the
/// one that key 0 maps to, and so the one whose call forms batch 0 (an empty batch 0
/// where it cannot be replayed).
pub proof fn lemma_root_by_path(entries: Seq<TraceEntry>, r: int, signer: Seq<u8>, substitute: Seq<u8>)
    requires
        0 <= r < entries.len(),
        entries[r].trace_address@.len() == 0,
        distinct_paths(entries),
    ensures
        entry_at(entries, 0) == Some(r),
        plan_of(entries, signer, substitute).len() >= 1,
        plan_of(entries, signer, substitute)[0] == match replay_of(entries[r].action, signer, substitute) {
            Some(c) => seq![c],
            None => seq![],
        },
{
    lemma_key_encoding(entries[r].trace_address@, entries[r].trace_address@);
    assert(entries[r].trace_address@ =~= Seq::<usize>::empty());
    lemma_entry_at_by_key(entries, r);
}

/// Where the paths are distinct, the root (empty path) declares `N >= 1` children,
/// the entry `children[i]` has path `[i]`, and the root and all those children are
/// calls or creations: the trace is well formed and its plan has exactly two batches,
/// the root's call, then the children's calls in the order of their paths
/// `[0] .. [N - 1]`. Entries deeper in the tree play no part.
pub proof fn lemma_happy_path_by_paths(
    entries: Seq<TraceEntry>,
    signer: Seq<u8>,
    substitute: Seq<u8>,
    r: int,
    children: Seq<int>,
)
    requires
        distinct_paths(entries),
        0 <= r < entries.len(),
        entries[r].trace_address@.len() == 0,
        entries[r].subtraces >= 1,
        replayable(entries[r].action),
        children.len() == entries[r].subtraces,
        forall|i: int|
            0 <= i < children.len() ==> 0 <= #[trigger] children[i] < entries.len()
                && entries[children[i]].trace_address@ == seq![i as usize] && replayable(
                entries[children[i]].action,
            ),
    ensures
        well_formed_trace(entries),
        plan_of(entries, signer, substitute).len() == 2,
        plan_of(entries, signer, substitute)[0] == seq![
            replay_of(entries[r].action, signer, substitute)->0,
        ],
        plan_of(entries, signer, substitute)[1] == Seq::new(
            children.len(),
            |i: int| replay_of(entries[children[i]].action, signer, substitute)->0,
        ),
{
    lemma_root_by_path(entries, r, signer, substitute);
    let n = entries[r].subtraces as nat;
    assert forall|i: nat| 1 <= i <= n implies #[trigger] entry_at(entries, i) == Some(
        children[i - 1],
    ) by {
        let c = children[i - 1];
        let p = entries[c].trace_address@;
        lemma_key_encoding(p, p);
        assert(path_key(p) == i);
        lemma_entry_at_by_key(entries, c);
    }
    assert forall|i: nat| 1 <= i <= n implies (#[trigger] entry_at(entries, i)) is Some
        && replayable(entries[entry_at(entries, i)->0].action) by {
        assert(entry_at(entries, i) == Some(children[i - 1]));
    }
    lemma_child_calls_all(entries, n, n, signer, substitute);
    assert(plan_of(entries, signer, substitute)[1] =~= Seq::new(
        children.len(),
        |i: int| replay_of(entries[children[i]].action, signer, substitute)->0,
    )) by {
        assert forall|i: int| 0 <= i < children.len() implies call_at(
            entries,
            (i + 1) as nat,
            signer,
            substitute,
        ) == replay_of(entries[children[i]].action, signer, substitute)->0 by {
            assert(entry_at(entries, (i + 1) as nat) == Some(children[i]));
        }
    }
}

proof fn lemma_last_with_key_extend(entries: Seq<TraceEntry>, deeper: Seq<TraceEntry>, k: nat, n: int)
    requires
        entries.len() <= n <= entries.len() + deeper.len(),
        forall|i: int| 0 <= i < deeper.len() ==> !shallow(#[trigger] deeper[i]),
    ensures
        last_with_key(entries + deeper, k, n) == last_with_key(entries, k, entries.len() as int),
    decreases n,
{
    let all = entries + deeper;
    if n > entries.len() {
        assert(all[n - 1] == deeper[n - 1 - entries.len()]);
        lemma_last_with_key_extend(entries, deeper, k, n - 1);
    } else {
        lemma_last_with_key_prefix(entries, deeper, k, n);
    }
}

proof fn lemma_last_with_key_prefix(entries: Seq<TraceEntry>, deeper: Seq<TraceEntry>, k: nat, n: int)
    requires
        0 <= n <= entries.len(),
    ensures
        last_with_key(entries + deeper, k, n) == last_with_key(entries, k, n),
    decreases n,
{
    if n > 0 {
        assert((entries + deeper)[n - 1] == entries[n - 1]);
        lemma_last_with_key_prefix(entries, deeper, k, n - 1);
    }
}

proof fn lemma_child_calls_extend(
    entries: Seq<TraceEntry>,
    deeper: Seq<TraceEntry>,
    k: nat,
    signer: Seq<u8>,
    substitute: Seq<u8>,
)
    requires
        forall|i: int| 0 <= i < deeper.len() ==> !shallow(#[trigger] deeper[i]),
    ensures
        child_calls(entries + deeper, k, signer, substitute) == child_calls(
            entries,
            k,
            signer,
            substitute,
        ),
    decreases k,
{
    if k > 0 {
        lemma_child_calls_extend(entries, deeper, (k - 1) as nat, signer, substitute);
        lemma_last_with_key_extend(entries, deeper, k, (entries.len() + deeper.len()) as int);
        lemma_last_with_key_range(entries, k, entries.len() as int);
        if let Some(i) = entry_at(entries, k) {
            assert((entries + deeper)[i] == entries[i]);
        }
    }
}

/// Entries deeper than the root's direct children play no part: adding any number of
/// them to a trace changes neither whether it is well formed nor its plan.
pub proof fn lemma_plan_ignores_deeper(
    entries: Seq<TraceEntry>,
    deeper: Seq<TraceEntry>,
    signer: Seq<u8>,
    substitute: Seq<u8>,
)
    requires
        forall|i: int| 0 <= i < deeper.len() ==> !shallow(#[trigger] deeper[i]),
    ensures
        forall|k: nat| #[trigger] entry_at(entries + deeper, k) == entry_at(entries, k),
        well_formed_trace(entries + deeper) == well_formed_trace(entries),
        well_formed_trace(entries) ==> plan_of(entries + deeper, signer, substitute) == plan_of(
            entries,
            signer,
            substitute,
        ),
{
    let all = entries + deeper;
    assert forall|k: nat| #[trigger] entry_at(all, k) == entry_at(entries, k) by {
        lemma_last_with_key_extend(entries, deeper, k, all.len() as int);
    }
    if let Some(r) = entry_at(entries, 0) {
        lemma_last_with_key_range(entries, 0, entries.len() as int);
        assert(all[r] == entries[r]);
        lemma_child_calls_extend(entries, deeper, entries[r].subtraces as nat, signer, substitute);
        let n = entries[r].subtraces;
        assert(entry_at(all, 0) == entry_at(entries, 0));
        assert((forall|i: nat| 1 <= i <= n ==> (#[trigger] entry_at(all, i)) is Some) == (forall|
            i: nat,
        | 1 <= i <= n ==> (#[trigger] entry_at(entries, i)) is Some)) by {
            assert forall|i: nat| 1 <= i <= n implies entry_at(all, i) == entry_at(entries, i) by {
                assert(entry_at(all, i) == entry_at(entries, i));
            }
        }
    } else {
        assert(entry_at(all, 0) == entry_at(entries, 0));
    }
}

/// A batch as plain values.
pub open spec fn batch_view(b: Vec<ReplayableCall>) -> Seq<ReplayView> {
    b@.map_values(|c: ReplayableCall| c@)
}

/// A call plan as plain values.
pub open spec fn plan_view(plan: Seq<Vec<ReplayableCall>>) -> Seq<Seq<ReplayView>> {
    plan.map_values(|b: Vec<ReplayableCall>| batch_view(b))
}

/// Rebuilds a trace as a call plan: batch 0 holds the root's call, batch 1 (where
/// non-empty) the direct children's calls in child order. Entries that cannot be
/// replayed are left out; entries deeper than the direct children are not looked up.
pub fn trace_to_tx(entries: &Vec<TraceEntry>, signer: &Address, contract: &Option<Address>) -> (r:
    Result<Vec<Vec<ReplayableCall>>, TraceError>)
    ensures
        match r {
            Ok(plan) => well_formed_trace(entries@) && plan_view(plan@) == plan_of(
                entries@,
                signer@,
                substitute_of(*signer, *contract),
            ),
            Err(_) => !well_formed_trace(entries@),
        },
{
    let ghost sub = substitute_of(*signer, *contract);
    let mut trace_map: HashMap<usize, usize> = HashMap::new();
    let mut j: usize = 0;
    while j < entries.len()
        invariant
            j <= entries@.len(),
            forall|k: usize| #[trigger]
                trace_map@.contains_key(k) == last_with_key(entries@, k as nat, j as int) is Some,
            forall|k: usize| #[trigger]
                trace_map@.contains_key(k) ==> last_with_key(entries@, k as nat, j as int) == Some(
                    trace_map@[k] as int,
                ),
        decreases entries@.len() - j,
    {
        if entries[j].trace_address.len() <= 1 {
            match trace_key(&entries[j].trace_address) {
                Some(k) => {
                    trace_map.insert(k, j);
                },
                None => {},
            }
        }
        j += 1;
    }
    let root_idx = match trace_map.get(&0) {
        Some(idx) => *idx,
        None => {
            return Err(TraceError::MalformedTrace);
        },
    };
    proof {
        lemma_last_with_key_range(entries@, 0, entries@.len() as int);
    }
    let root = &entries[root_idx];
    let mut plan: Vec<Vec<ReplayableCall>> = Vec::new();
    let mut first: Vec<ReplayableCall> = Vec::new();
    match parse_tx_trace(root, signer, contract) {
        Some(tx) => {
            first.push(tx);
        },
        None => {},
    }
    let mut children: Vec<ReplayableCall> = Vec::new();
    let mut c: usize = 0;
    while c < root.subtraces
        invariant
            c <= root.subtraces,
            sub == substitute_of(*signer, *contract),
            entry_at(entries@, 0) == Some(root_idx as int),
            0 <= root_idx < entries@.len(),
            *root == entries@[root_idx as int],
            forall|k: usize| #[trigger]
                trace_map@.contains_key(k) == entry_at(entries@, k as nat) is Some,
            forall|k: usize| #[trigger]
                trace_map@.contains_key(k) ==> entry_at(entries@, k as nat) == Some(
                    trace_map@[k] as int,
                ),
            forall|i: nat| 1 <= i <= c ==> (#[trigger] entry_at(entries@, i)) is Some,
            batch_view(children) == child_calls(entries@, c as nat, signer@, sub),
        decreases root.subtraces - c,
    {
        let key = c + 1;
        let idx = match trace_map.get(&key) {
            Some(idx) => *idx,
            None => {
                return Err(TraceError::MalformedTrace);
            },
        };
        proof {
            lemma_last_with_key_range(entries@, key as nat, entries@.len() as int);
        }
        let ghost before = children@;
        let ghost earlier = child_calls(entries@, c as nat, signer@, sub);
        assert(entry_at(entries@, key as nat) == Some(idx as int));
        match parse_tx_trace(&entries[idx], signer, contract) {
            Some(tx) => {
                children.push(tx);
                assert(batch_view(children) =~= before.map_values(|c: ReplayableCall| c@).push(tx@));
                assert(child_calls(entries@, key as nat, signer@, sub) == earlier.push(tx@));
            },
            None => {
                assert(child_calls(entries@, key as nat, signer@, sub) == earlier);
            },
        }
        c = key;
    }
    let ghost first_view = batch_view(first);
    let ghost children_view = batch_view(children);
    plan.push(first);
    if children.len() > 0 {
        plan.push(children);
        assert(plan_view(plan@) =~= seq![first_view, children_view]);
    } else {
        assert(plan_view(plan@) =~= seq![first_view]);
    }
    assert(first_view =~= match replay_of(root.action, signer@, sub) {
        Some(c) => seq![c],
        None => seq![],
    });
    Ok(plan)
}

} // verus!
