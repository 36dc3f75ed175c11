//! Account state and the atomic application of a transaction batch.
use vstd::prelude::*;
use crate::hash::{be64, hash_of, hash_slice, push_u64, H256};

verus! {

/// One account: its address, balance and the nonce of its last transaction.
#[derive(Clone, Copy, Debug, PartialEq, Eq, Structural)]
pub struct Account {
    pub address: u64,
    pub balance: u64,
    pub nonce: u64,
}

/// A transfer of `amount` from `from` to `to`; `nonce` must be one more than
/// the sender's current nonce.
#[derive(Clone, Copy, Debug, PartialEq, Eq, Structural)]
pub struct Transaction {
    pub from: u64,
    pub to: u64,
    pub amount: u64,
    pub nonce: u64,
}

/// The position of the last account of `s` with address `a`, or -1.
pub open spec fn index_of(s: Seq<Account>, a: u64) -> int
    decreases s.len(),
{
    if s.len() == 0 {
        -1
    } else if s.last().address == a {
        s.len() - 1
    } else {
        index_of(s.drop_last(), a)
    }
}

/// The state after one transaction, or `None` when the sender is unknown,
/// the nonce is not the next one, the balance does not cover the amount, or
/// the receiver's balance would overflow. An unknown receiver is created.
pub open spec fn apply_tx(s: Seq<Account>, tx: Transaction) -> Option<Seq<Account>> {
    let i = index_of(s, tx.from);
    let j = index_of(s, tx.to);
    if i < 0 {
        None
    } else if tx.nonce != s[i].nonce + 1 || s[i].balance < tx.amount {
        None
    } else {
        let s1 = s.update(
            i,
            Account { address: tx.from, balance: (s[i].balance - tx.amount) as u64, nonce: tx.nonce },
        );
        if j < 0 {
            Some(s1.push(Account { address: tx.to, balance: tx.amount, nonce: 0 }))
        } else if s1[j].balance + tx.amount > u64::MAX {
            None
        } else {
            Some(s1.update(j, Account { balance: (s1[j].balance + tx.amount) as u64, ..s1[j] }))
        }
    }
}

/// The state after the whole batch, applied in order, or `None` as soon as
/// one transaction is invalid.
pub open spec fn apply_batch(s: Seq<Account>, txs: Seq<Transaction>) -> Option<Seq<Account>>
    decreases txs.len(),
{
    if txs.len() == 0 {
        Some(s)
    } else {
        match apply_batch(s, txs.drop_last()) {
            None => None,
            Some(s2) => apply_tx(s2, txs.last()),
        }
    }
}

/// The bytes that a state root commits to: each account's address, balance
/// and nonce, in order.
pub open spec fn encode_accounts(s: Seq<Account>) -> Seq<u8>
    decreases s.len(),
{
    if s.len() == 0 {
        Seq::empty()
    } else {
        encode_accounts(s.drop_last()) + be64(s.last().address) + be64(s.last().balance) + be64(
            s.last().nonce,
        )
    }
}

/// The digest of a whole state.
pub open spec fn root_of(s: Seq<Account>) -> H256 {
    hash_of(encode_accounts(s))
}

/// The root a batch yields over a prior state, when the batch is valid.
pub open spec fn batch_root(s: Seq<Account>, txs: Seq<Transaction>) -> Option<H256> {
    match apply_batch(s, txs) {
        None => None,
        Some(s2) => Some(root_of(s2)),
    }
}

/// Applying the same batch to the same prior state yields the same state
/// and the same root: the result depends on those two inputs and nothing
/// else.
pub proof fn lemma_state_root_deterministic(
    s1: Seq<Account>,
    t1: Seq<Transaction>,
    s2: Seq<Account>,
    t2: Seq<Transaction>,
)
    requires
        s1 == s2,
        t1 == t2,
    ensures
        apply_batch(s1, t1) == apply_batch(s2, t2),
        batch_root(s1, t1) == batch_root(s2, t2),
{
}

/// The position of the last account with address `a`.
pub fn find_account(s: &Vec<Account>, a: u64) -> (r: Option<usize>)
    ensures
        match r {
            None => index_of(s@, a) == -1,
            Some(i) => index_of(s@, a) == i as int && i < s@.len(),
        },
{
    let mut k: usize = s.len();
    assert(s@.subrange(0, k as int) =~= s@);
    while k > 0
        invariant
            k <= s@.len(),
            index_of(s@.subrange(0, k as int), a) == index_of(s@, a),
        decreases k,
    {
        let ghost pre = s@.subrange(0, k as int);
        assert(pre.drop_last() =~= s@.subrange(0, k - 1));
        if s[k - 1].address == a {
            return Some(k - 1);
        }
        k = k - 1;
    }
    assert(s@.subrange(0, 0) =~= Seq::<Account>::empty());
    None
}

/// Applies one transaction in place; on `false` the state is untouched.
pub fn apply_transaction(s: &mut Vec<Account>, tx: Transaction) -> (ok: bool)
    ensures
        ok == apply_tx(old(s)@, tx).is_some(),
        ok ==> final(s)@ == apply_tx(old(s)@, tx).unwrap(),
        !ok ==> final(s)@ == old(s)@,
{
    let i = match find_account(s, tx.from) {
        None => return false,
        Some(i) => i,
    };
    let j = find_account(s, tx.to);
    let sender = s[i];
    if sender.nonce == u64::MAX || tx.nonce != sender.nonce + 1 || sender.balance < tx.amount {
        return false;
    }
    match j {
        None => {
            s.set(i, Account { address: tx.from, balance: sender.balance - tx.amount, nonce: tx.nonce });
            s.push(Account { address: tx.to, balance: tx.amount, nonce: 0 });
            true
        },
        Some(j) => {
            let receiver = if j == i {
                Account { address: tx.from, balance: sender.balance - tx.amount, nonce: tx.nonce }
            } else {
                s[j]
            };
            if receiver.balance > u64::MAX - tx.amount {
                return false;
            }
            s.set(i, Account { address: tx.from, balance: sender.balance - tx.amount, nonce: tx.nonce });
            s.set(j, Account { balance: receiver.balance + tx.amount, ..receiver });
            true
        },
    }
}

/// Applies a batch to a copy of `prior`: the new state when every
/// transaction is valid in turn, `None` otherwise. `prior` is never touched.
pub fn apply_transactions(prior: &Vec<Account>, txs: &Vec<Transaction>) -> (r: Option<Vec<Account>>)
    ensures
        match r {
            None => apply_batch(prior@, txs@).is_none(),
            Some(v) => apply_batch(prior@, txs@) == Some(v@),
        },
{
    let mut cur: Vec<Account> = Vec::new();
    let mut k: usize = 0;
    while k < prior.len()
        invariant
            k <= prior@.len(),
            cur@ == prior@.subrange(0, k as int),
        decreases prior@.len() - k,
    {
        cur.push(prior[k]);
        k = k + 1;
        assert(cur@ =~= prior@.subrange(0, k as int));
    }
    assert(prior@.subrange(0, prior@.len() as int) =~= prior@);
    assert(txs@.subrange(0, 0) =~= Seq::<Transaction>::empty());
    let mut n: usize = 0;
    while n < txs.len()
        invariant
            n <= txs@.len(),
            apply_batch(prior@, txs@.subrange(0, n as int)) == Some(cur@),
        decreases txs@.len() - n,
    {
        assert(txs@.subrange(0, n + 1).drop_last() =~= txs@.subrange(0, n as int));
        if !apply_transaction(&mut cur, txs[n]) {
            assert(apply_batch(prior@, txs@.subrange(0, n + 1)).is_none());
            proof { lemma_batch_none_extends(prior@, txs@, n as int + 1); }
            return None;
        }
        n = n + 1;
    }
    assert(txs@.subrange(0, txs@.len() as int) =~= txs@);
    Some(cur)
}

/// Once a prefix of a batch fails, the whole batch fails.
proof fn lemma_batch_none_extends(s: Seq<Account>, txs: Seq<Transaction>, n: int)
    requires
        0 <= n <= txs.len(),
        apply_batch(s, txs.subrange(0, n)).is_none(),
    ensures
        apply_batch(s, txs).is_none(),
    decreases txs.len() - n,
{
    if n < txs.len() {
        assert(txs.subrange(0, n + 1).drop_last() =~= txs.subrange(0, n));
        lemma_batch_none_extends(s, txs, n + 1);
    } else {
        assert(txs.subrange(0, n) =~= txs);
    }
}

/// The bytes a state root commits to.
pub fn encode_state(s: &Vec<Account>) -> (r: Vec<u8>)
    ensures
        r@ == encode_accounts(s@),
{
    let mut out: Vec<u8> = Vec::new();
    let mut k: usize = 0;
    assert(s@.subrange(0, 0) =~= Seq::<Account>::empty());
    while k < s.len()
        invariant
            k <= s@.len(),
            out@ == encode_accounts(s@.subrange(0, k as int)),
        decreases s@.len() - k,
    {
        assert(s@.subrange(0, k + 1).drop_last() =~= s@.subrange(0, k as int));
        let a = s[k];
        push_u64(&mut out, a.address);
        push_u64(&mut out, a.balance);
        push_u64(&mut out, a.nonce);
        k = k + 1;
    }
    assert(s@.subrange(0, s@.len() as int) =~= s@);
    out
}

/// The root of a state.
pub fn state_root(s: &Vec<Account>) -> (r: H256)
    ensures
        r == root_of(s@),
{
    hash_slice(&encode_state(s))
}

} // verus!
