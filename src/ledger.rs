//! The mathematical model of the ledger's tables and of what each write does
//! to them.
use vstd::prelude::*;
use crate::amount::clamped_difference;
use crate::model::{AccountView, EventKind, IndexedBlockView, TokenView, TransferView};

verus! {

// ---- accounts -------------------------------------------------------------

pub open spec fn account_key_is(a: AccountView, addr: Seq<char>, tok: Seq<char>) -> bool {
    a.address == addr && a.token_address == tok
}

pub open spec fn accounts_unique(s: Seq<AccountView>) -> bool {
    forall|i: int, j: int|
        0 <= i < s.len() && 0 <= j < s.len() && i != j ==> !account_key_is(
            s[i],
            s[j].address,
            s[j].token_address,
        )
}

/// Where the row of `(addr, tok)` stands, or -1.
pub open spec fn account_index(s: Seq<AccountView>, addr: Seq<char>, tok: Seq<char>) -> int {
    if exists|i: int| 0 <= i < s.len() && account_key_is(s[i], addr, tok) {
        choose|i: int| 0 <= i < s.len() && account_key_is(s[i], addr, tok)
    } else {
        -1
    }
}

/// The balance of `addr` in `tok`; zero where no row exists.
pub open spec fn balance_of(s: Seq<AccountView>, addr: Seq<char>, tok: Seq<char>) -> nat {
    let i = account_index(s, addr, tok);
    if i >= 0 {
        s[i].balance
    } else {
        0
    }
}

/// The accounts after crediting (`is_add`) or debiting, clamped at zero,
/// `addr` in `tok` by `amount` at `block`; a missing row is created.
pub open spec fn upserted_accounts(
    s: Seq<AccountView>,
    addr: Seq<char>,
    tok: Seq<char>,
    amount: nat,
    is_add: bool,
    block: i64,
) -> Seq<AccountView> {
    let i = account_index(s, addr, tok);
    if i >= 0 {
        s.update(
            i,
            AccountView {
                address: addr,
                token_address: tok,
                balance: if is_add {
                    s[i].balance + amount
                } else {
                    clamped_difference(s[i].balance, amount)
                },
                updated_at_block: block,
            },
        )
    } else {
        s.push(
            AccountView {
                address: addr,
                token_address: tok,
                balance: if is_add {
                    amount
                } else {
                    0
                },
                updated_at_block: block,
            },
        )
    }
}

/// The accounts after the balance effects of one transfer event.
pub open spec fn accounts_after_effects(s: Seq<AccountView>, t: TransferView) -> Seq<AccountView> {
    match t.event_type {
        EventKind::Mint => upserted_accounts(
            s,
            t.to_address,
            t.token_address,
            t.amount,
            true,
            t.block_number,
        ),
        EventKind::Burn => upserted_accounts(
            s,
            t.from_address,
            t.token_address,
            t.amount,
            false,
            t.block_number,
        ),
        EventKind::Transfer => upserted_accounts(
            upserted_accounts(
                s,
                t.from_address,
                t.token_address,
                t.amount,
                false,
                t.block_number,
            ),
            t.to_address,
            t.token_address,
            t.amount,
            true,
            t.block_number,
        ),
    }
}

/// What one event does to the balance `bal` of `addr` in `tok`.
pub open spec fn balance_effect(bal: nat, t: TransferView, addr: Seq<char>, tok: Seq<char>) -> nat {
    if t.token_address != tok {
        bal
    } else {
        match t.event_type {
            EventKind::Mint => if t.to_address == addr {
                bal + t.amount
            } else {
                bal
            },
            EventKind::Burn => if t.from_address == addr {
                clamped_difference(bal, t.amount)
            } else {
                bal
            },
            EventKind::Transfer => {
                let debited = if t.from_address == addr {
                    clamped_difference(bal, t.amount)
                } else {
                    bal
                };
                if t.to_address == addr {
                    debited + t.amount
                } else {
                    debited
                }
            },
        }
    }
}

/// The balance of `addr` in `tok` after the events of `ts`, in order, from `bal`.
pub open spec fn balance_after(bal: nat, ts: Seq<TransferView>, addr: Seq<char>, tok: Seq<char>) -> nat
    decreases ts.len(),
{
    if ts.len() == 0 {
        bal
    } else {
        balance_effect(balance_after(bal, ts.drop_last(), addr, tok), ts.last(), addr, tok)
    }
}

// ---- transfer log ---------------------------------------------------------

pub open spec fn transfer_key_is(t: TransferView, tx: Seq<char>, log_index: i64) -> bool {
    t.transaction_hash == tx && t.log_index == log_index
}

pub open spec fn transfers_unique(s: Seq<TransferView>) -> bool {
    forall|i: int, j: int|
        0 <= i < s.len() && 0 <= j < s.len() && i != j ==> !transfer_key_is(
            s[i],
            s[j].transaction_hash,
            s[j].log_index,
        )
}

/// The log already holds an event with this transaction hash and log index.
pub open spec fn log_has(s: Seq<TransferView>, tx: Seq<char>, log_index: i64) -> bool {
    exists|i: int| 0 <= i < s.len() && transfer_key_is(s[i], tx, log_index)
}

/// The log after offering it `t`: appended when its key is new.
pub open spec fn appended(s: Seq<TransferView>, t: TransferView) -> Seq<TransferView> {
    if log_has(s, t.transaction_hash, t.log_index) {
        s
    } else {
        s.push(t)
    }
}

/// The log after offering it each event of `batch` in order.
pub open spec fn appended_all(s: Seq<TransferView>, batch: Seq<TransferView>) -> Seq<TransferView>
    decreases batch.len(),
{
    if batch.len() == 0 {
        s
    } else {
        appended(appended_all(s, batch.drop_last()), batch.last())
    }
}

/// Log and accounts after offering `t`: a new event is appended and its
/// effects applied; a known one changes nothing.
pub open spec fn ingested(
    log: Seq<TransferView>,
    accs: Seq<AccountView>,
    t: TransferView,
) -> (Seq<TransferView>, Seq<AccountView>) {
    if log_has(log, t.transaction_hash, t.log_index) {
        (log, accs)
    } else {
        (log.push(t), accounts_after_effects(accs, t))
    }
}

pub open spec fn ingested_all(
    log: Seq<TransferView>,
    accs: Seq<AccountView>,
    batch: Seq<TransferView>,
) -> (Seq<TransferView>, Seq<AccountView>)
    decreases batch.len(),
{
    if batch.len() == 0 {
        (log, accs)
    } else {
        let p = ingested_all(log, accs, batch.drop_last());
        ingested(p.0, p.1, batch.last())
    }
}

// ---- blocks and tokens ----------------------------------------------------

pub open spec fn blocks_unique(s: Seq<IndexedBlockView>) -> bool {
    forall|i: int, j: int|
        0 <= i < s.len() && 0 <= j < s.len() && i != j ==> s[i].block_number != s[j].block_number
}

pub open spec fn tokens_unique(s: Seq<TokenView>) -> bool {
    forall|i: int, j: int|
        0 <= i < s.len() && 0 <= j < s.len() && i != j ==> s[i].address != s[j].address
}

pub open spec fn token_index(s: Seq<TokenView>, addr: Seq<char>) -> int {
    if exists|i: int| 0 <= i < s.len() && s[i].address == addr {
        choose|i: int| 0 <= i < s.len() && s[i].address == addr
    } else {
        -1
    }
}

pub open spec fn block_index(s: Seq<IndexedBlockView>, n: i64) -> int {
    if exists|i: int| 0 <= i < s.len() && s[i].block_number == n {
        choose|i: int| 0 <= i < s.len() && s[i].block_number == n
    } else {
        -1
    }
}

/// The blocks after recording `b`: it replaces the block of the same height, if any.
pub open spec fn upserted_blocks(s: Seq<IndexedBlockView>, b: IndexedBlockView) -> Seq<IndexedBlockView> {
    let i = block_index(s, b.block_number);
    if i >= 0 {
        s.update(i, b)
    } else {
        s.push(b)
    }
}

// ---- lemmas ---------------------------------------------------------------

pub proof fn lemma_account_index(s: Seq<AccountView>, addr: Seq<char>, tok: Seq<char>, i: int)
    requires
        accounts_unique(s),
        0 <= i < s.len(),
        account_key_is(s[i], addr, tok),
    ensures
        account_index(s, addr, tok) == i,
{
}

pub proof fn lemma_upserted_accounts(
    s: Seq<AccountView>,
    addr: Seq<char>,
    tok: Seq<char>,
    amount: nat,
    is_add: bool,
    block: i64,
)
    requires
        accounts_unique(s),
    ensures
        accounts_unique(upserted_accounts(s, addr, tok, amount, is_add, block)),
        forall|x: Seq<char>, y: Seq<char>|
            #[trigger] balance_of(upserted_accounts(s, addr, tok, amount, is_add, block), x, y) == if x
                == addr && y == tok {
                if is_add {
                    balance_of(s, addr, tok) + amount
                } else {
                    clamped_difference(balance_of(s, addr, tok), amount)
                }
            } else {
                balance_of(s, x, y)
            },
{
    let r = upserted_accounts(s, addr, tok, amount, is_add, block);
    let i = account_index(s, addr, tok);
    assert(accounts_unique(r));
    assert forall|x: Seq<char>, y: Seq<char>|
        #[trigger] balance_of(r, x, y) == if x == addr && y == tok {
            if is_add {
                balance_of(s, addr, tok) + amount
            } else {
                clamped_difference(balance_of(s, addr, tok), amount)
            }
        } else {
            balance_of(s, x, y)
        } by {
        if i >= 0 {
            lemma_account_index(r, addr, tok, i);
            if !(x == addr && y == tok) {
                let j = account_index(s, x, y);
                if j >= 0 {
                    lemma_account_index(r, x, y, j);
                } else {
                    assert(!exists|k: int| 0 <= k < r.len() && account_key_is(r[k], x, y)) by {
                        if exists|k: int| 0 <= k < r.len() && account_key_is(r[k], x, y) {
                            let k = choose|k: int| 0 <= k < r.len() && account_key_is(r[k], x, y);
                            assert(account_key_is(s[k], x, y));
                        }
                    }
                }
            }
        } else {
            lemma_account_index(r, addr, tok, s.len() as int);
            if !(x == addr && y == tok) {
                let j = account_index(s, x, y);
                if j >= 0 {
                    lemma_account_index(r, x, y, j);
                } else {
                    assert(!exists|k: int| 0 <= k < r.len() && account_key_is(r[k], x, y)) by {
                        if exists|k: int| 0 <= k < r.len() && account_key_is(r[k], x, y) {
                            let k = choose|k: int| 0 <= k < r.len() && account_key_is(r[k], x, y);
                            assert(k < s.len());
                            assert(account_key_is(s[k], x, y));
                        }
                    }
                }
            }
        }
    }
}

pub proof fn lemma_accounts_after_effects(s: Seq<AccountView>, t: TransferView)
    requires
        accounts_unique(s),
    ensures
        accounts_unique(accounts_after_effects(s, t)),
        forall|x: Seq<char>, y: Seq<char>|
            #[trigger] balance_of(accounts_after_effects(s, t), x, y) == balance_effect(
                balance_of(s, x, y),
                t,
                x,
                y,
            ),
{
    match t.event_type {
        EventKind::Mint => {
            lemma_upserted_accounts(s, t.to_address, t.token_address, t.amount, true, t.block_number);
        },
        EventKind::Burn => {
            lemma_upserted_accounts(s, t.from_address, t.token_address, t.amount, false, t.block_number);
        },
        EventKind::Transfer => {
            let s1 = upserted_accounts(s, t.from_address, t.token_address, t.amount, false, t.block_number);
            lemma_upserted_accounts(s, t.from_address, t.token_address, t.amount, false, t.block_number);
            lemma_upserted_accounts(s1, t.to_address, t.token_address, t.amount, true, t.block_number);
        },
    }
}

// ---- read-side selections -------------------------------------------------

/// `a` is no newer than `b`: ordered by block number, then log index.
pub open spec fn transfer_order_le(a: TransferView, b: TransferView) -> bool {
    a.block_number < b.block_number || (a.block_number == b.block_number && a.log_index <= b.log_index)
}

/// An event that a listing for `token` (every token for `None`) shows.
pub open spec fn transfer_admitted(t: TransferView, token: Option<Seq<char>>) -> bool {
    match token {
        Some(a) => t.token_address == a,
        None => true,
    }
}

/// `r` lists, newest first, the at most `limit` newest events of `log` for
/// `token`; `idx` says where each stands in `log`. Events of equal order may
/// come in either order.
pub open spec fn newest_transfers_at(
    log: Seq<TransferView>,
    token: Option<Seq<char>>,
    limit: nat,
    r: Seq<TransferView>,
    idx: Seq<int>,
) -> bool {
    &&& idx.len() == r.len()
    &&& r.len() <= limit
    &&& idx.no_duplicates()
    &&& forall|k: int|
        0 <= k < r.len() ==> 0 <= #[trigger] idx[k] < log.len() && transfer_admitted(log[idx[k]], token)
            && r[k] == log[idx[k]]
    &&& forall|k: int, l: int| 0 <= k < l < r.len() ==> transfer_order_le(r[l], r[k])
    &&& forall|j: int|
        0 <= j < log.len() && transfer_admitted(#[trigger] log[j], token) && !idx.contains(j) ==> r.len()
            == limit && (limit > 0 ==> transfer_order_le(log[j], r[r.len() - 1]))
}

pub open spec fn newest_transfers(
    log: Seq<TransferView>,
    token: Option<Seq<char>>,
    limit: nat,
    r: Seq<TransferView>,
) -> bool {
    exists|idx: Seq<int>| newest_transfers_at(log, token, limit, r, idx)
}

/// A holder that a ranking of `token` shows: a row of that token with a
/// positive balance.
pub open spec fn holder_admitted(a: AccountView, token: Seq<char>) -> bool {
    a.token_address == token && a.balance > 0
}

/// `r` lists, largest balance first, the at most `limit` largest positive
/// balances in `token`; `idx` says where each row stands in `accs`. Rows of
/// equal balance may come in either order.
pub open spec fn top_holders_at(
    accs: Seq<AccountView>,
    token: Seq<char>,
    limit: nat,
    r: Seq<AccountView>,
    idx: Seq<int>,
) -> bool {
    &&& idx.len() == r.len()
    &&& r.len() <= limit
    &&& idx.no_duplicates()
    &&& forall|k: int|
        0 <= k < r.len() ==> 0 <= #[trigger] idx[k] < accs.len() && holder_admitted(accs[idx[k]], token)
            && r[k] == accs[idx[k]]
    &&& forall|k: int, l: int| 0 <= k < l < r.len() ==> r[l].balance <= r[k].balance
    &&& forall|j: int|
        0 <= j < accs.len() && holder_admitted(#[trigger] accs[j], token) && !idx.contains(j) ==> r.len()
            == limit && (limit > 0 ==> accs[j].balance <= r[r.len() - 1].balance)
}

pub open spec fn top_holders(
    accs: Seq<AccountView>,
    token: Seq<char>,
    limit: nat,
    r: Seq<AccountView>,
) -> bool {
    exists|idx: Seq<int>| top_holders_at(accs, token, limit, r, idx)
}

/// `a` comes no later than `b` in character order.
pub open spec fn text_le(a: Seq<char>, b: Seq<char>) -> bool
    decreases a.len(),
{
    if a.len() == 0 {
        true
    } else if b.len() == 0 {
        false
    } else if a[0] != b[0] {
        a[0] < b[0]
    } else {
        text_le(a.drop_first(), b.drop_first())
    }
}

pub proof fn lemma_text_le_total(a: Seq<char>, b: Seq<char>)
    ensures
        text_le(a, b) || text_le(b, a),
    decreases a.len(),
{
    if a.len() > 0 && b.len() > 0 && a[0] == b[0] {
        lemma_text_le_total(a.drop_first(), b.drop_first());
    }
}

pub proof fn lemma_text_le_transitive(a: Seq<char>, b: Seq<char>, c: Seq<char>)
    requires
        text_le(a, b),
        text_le(b, c),
    ensures
        text_le(a, c),
    decreases a.len(),
{
    if a.len() > 0 && b.len() > 0 && c.len() > 0 && a[0] == b[0] && b[0] == c[0] {
        lemma_text_le_transitive(a.drop_first(), b.drop_first(), c.drop_first());
    }
}

/// `r` lists every token of `tokens` once, ordered by symbol; `idx` says
/// where each stands in `tokens`. Tokens of equal symbol may come in either
/// order.
pub open spec fn tokens_by_symbol_at(tokens: Seq<TokenView>, r: Seq<TokenView>, idx: Seq<int>) -> bool {
    &&& idx.len() == r.len()
    &&& idx.no_duplicates()
    &&& forall|k: int| 0 <= k < r.len() ==> 0 <= #[trigger] idx[k] < tokens.len() && r[k] == tokens[idx[k]]
    &&& forall|k: int, l: int| 0 <= k < l < r.len() ==> text_le(r[k].symbol, r[l].symbol)
    &&& forall|j: int| 0 <= j < tokens.len() ==> idx.contains(j)
}

pub open spec fn tokens_by_symbol(tokens: Seq<TokenView>, r: Seq<TokenView>) -> bool {
    exists|idx: Seq<int>| tokens_by_symbol_at(tokens, r, idx)
}

} // verus!
