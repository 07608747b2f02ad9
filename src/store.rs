//! The ledger store: token registry, transfer log, account balances, indexed
//! blocks and the progress checkpoint, with the operations that keep them
//! consistent.
use vstd::prelude::*;
use vstd::string::StringExecFns;
use vstd::string::StrSliceExecFns;
use crate::amount::Amount;
use crate::ledger::{
    account_key_is, accounts_after_effects, appended, appended_all, block_index, blocks_unique,
    ingested_all, account_index, lemma_account_index, lemma_upserted_accounts, log_has, token_index,
    tokens_unique, transfer_key_is, transfers_unique, upserted_accounts, upserted_blocks,
    accounts_unique, newest_transfers, newest_transfers_at, transfer_admitted, transfer_order_le, top_holders,
    top_holders_at, holder_admitted, text_le, lemma_text_le_total, lemma_text_le_transitive,
    tokens_by_symbol, tokens_by_symbol_at,
};
use crate::model::{
    Account, AccountView, EventKind, IndexedBlock, IndexedBlockView, LedgerError, Token, TokenView,
    Transfer, TransferView,
};

verus! {

/// The tables of the ledger, as sequences of record views.
pub struct LedgerTables {
    pub tokens: Seq<TokenView>,
    pub transfers: Seq<TransferView>,
    pub accounts: Seq<AccountView>,
    pub blocks: Seq<IndexedBlockView>,
    pub checkpoint: Option<i64>,
}

/// Each table holds at most one row per key.
pub open spec fn store_wf(v: LedgerTables) -> bool {
    &&& tokens_unique(v.tokens)
    &&& transfers_unique(v.transfers)
    &&& accounts_unique(v.accounts)
    &&& blocks_unique(v.blocks)
}

pub open spec fn transfer_views(s: Seq<Transfer>) -> Seq<TransferView> {
    s.map_values(|t: Transfer| t@)
}

/// The whole derived state of one ledger.
pub struct Store {
    tokens: Vec<Token>,
    transfers: Vec<Transfer>,
    accounts: Vec<Account>,
    blocks: Vec<IndexedBlock>,
    checkpoint: Option<i64>,
}

impl View for Store {
    type V = LedgerTables;

    closed spec fn view(&self) -> LedgerTables {
        LedgerTables {
            tokens: self.tokens@.map_values(|t: Token| t@),
            transfers: transfer_views(self.transfers@),
            accounts: self.accounts@.map_values(|a: Account| a@),
            blocks: self.blocks@.map_values(|b: IndexedBlock| b@),
            checkpoint: self.checkpoint,
        }
    }
}

impl Store {
    /// A ledger with empty tables and no checkpoint.
    pub fn new() -> (r: Store)
        ensures
            r@.tokens.len() == 0,
            r@.transfers.len() == 0,
            r@.accounts.len() == 0,
            r@.blocks.len() == 0,
            r@.checkpoint is None,
            store_wf(r@),
    {
        Store {
            tokens: Vec::new(),
            transfers: Vec::new(),
            accounts: Vec::new(),
            blocks: Vec::new(),
            checkpoint: None,
        }
    }
}

/// Where the row of `(addr, tok)` stands in `accounts`.
fn find_account(accounts: &Vec<Account>, addr: &String, tok: &String) -> (r: Option<usize>)
    ensures
        r matches Some(i) ==> i < accounts@.len() && account_key_is(accounts@[i as int]@, addr@, tok@),
        r is None ==> forall|i: int|
            0 <= i < accounts@.len() ==> !account_key_is(#[trigger] accounts@[i]@, addr@, tok@),
{
    let mut i: usize = 0;
    while i < accounts.len()
        invariant
            i <= accounts@.len(),
            forall|j: int| 0 <= j < i ==> !account_key_is(#[trigger] accounts@[j]@, addr@, tok@),
        decreases accounts@.len() - i,
    {
        if accounts[i].address == *addr && accounts[i].token_address == *tok {
            return Some(i);
        }
        i = i + 1;
    }
    None
}

/// Where the event with this key stands in `transfers`.
fn find_transfer(transfers: &Vec<Transfer>, tx: &String, log_index: i64) -> (r: Option<usize>)
    ensures
        r matches Some(i) ==> i < transfers@.len() && transfer_key_is(
            transfers@[i as int]@,
            tx@,
            log_index,
        ),
        r is None ==> !log_has(transfer_views(transfers@), tx@, log_index),
{
    let mut i: usize = 0;
    while i < transfers.len()
        invariant
            i <= transfers@.len(),
            forall|j: int|
                0 <= j < i ==> !transfer_key_is(#[trigger] transfers@[j]@, tx@, log_index),
        decreases transfers@.len() - i,
    {
        if transfers[i].transaction_hash == *tx && transfers[i].log_index == log_index {
            return Some(i);
        }
        i = i + 1;
    }
    proof {
        let v = transfer_views(transfers@);
        assert forall|j: int| 0 <= j < v.len() implies !transfer_key_is(v[j], tx@, log_index) by {
            assert(v[j] == transfers@[j]@);
        }
    }
    None
}

/// Credits or debits one account by an amount already read.
fn upsert_balance(
    store: &mut Store,
    addr: &String,
    tok: &String,
    amount: &Amount,
    is_add: bool,
    block_number: i64,
)
    requires
        store_wf(old(store)@),
    ensures
        store_wf(final(store)@),
        final(store)@ == (LedgerTables {
            accounts: upserted_accounts(old(store)@.accounts, addr@, tok@, amount@, is_add, block_number),
            ..old(store)@
        }),
{
    let ghost s = old(store)@.accounts;
    let found = find_account(&store.accounts, addr, tok);
    match found {
        Some(i) => {
            let balance = if is_add {
                store.accounts[i].balance.add(amount)
            } else {
                store.accounts[i].balance.subtract_clamped(amount)
            };
            let acc = Account {
                address: addr.clone(),
                token_address: tok.clone(),
                balance,
                updated_at_block: block_number,
            };
            proof {
                assert(s[i as int] == store.accounts@[i as int]@);
                lemma_account_index(s, addr@, tok@, i as int);
            }
            store.accounts.set(i, acc);
            proof {
                assert(store.accounts@.map_values(|a: Account| a@) =~= upserted_accounts(
                    s,
                    addr@,
                    tok@,
                    amount@,
                    is_add,
                    block_number,
                ));
            }
        },
        None => {
            let balance = if is_add {
                amount.clone()
            } else {
                Amount::zero()
            };
            let acc = Account {
                address: addr.clone(),
                token_address: tok.clone(),
                balance,
                updated_at_block: block_number,
            };
            proof {
                assert forall|k: int| 0 <= k < s.len() implies !account_key_is(s[k], addr@, tok@) by {
                    assert(s[k] == store.accounts@[k]@);
                }
            }
            store.accounts.push(acc);
            proof {
                assert(store.accounts@.map_values(|a: Account| a@) =~= upserted_accounts(
                    s,
                    addr@,
                    tok@,
                    amount@,
                    is_add,
                    block_number,
                ));
            }
        },
    }
    proof {
        lemma_upserted_accounts(s, addr@, tok@, amount@, is_add, block_number);
    }
}

/// Credits (`is_add`) or debits, clamped at zero, the balance of `address` in
/// `token_address` by the decimal text `amount`, and records `block_number`
/// as the row's last update. A missing row is created, at zero for a debit.
pub fn upsert_account_balance(
    store: &mut Store,
    address: &str,
    token_address: &str,
    amount: &str,
    is_add: bool,
    block_number: i64,
) -> (r: Result<(), LedgerError>)
    requires
        store_wf(old(store)@),
    ensures
        store_wf(final(store)@),
        r is Ok == crate::amount::is_decimal_text(amount@),
        r matches Err(e) ==> e == LedgerError::InvalidAmount && final(store)@ == old(store)@,
        r is Ok ==> final(store)@ == (LedgerTables {
            accounts: upserted_accounts(
                old(store)@.accounts,
                address@,
                token_address@,
                crate::amount::text_value(amount@),
                is_add,
                block_number,
            ),
            ..old(store)@
        }),
{
    let parsed = Amount::parse(amount);
    match parsed {
        Err(_) => Err(LedgerError::InvalidAmount),
        Ok(a) => {
            let addr = String::from_str(address);
            let tok = String::from_str(token_address);
            upsert_balance(store, &addr, &tok, &a, is_add, block_number);
            Ok(())
        },
    }
}

/// Applies the balance effects of one event: a mint credits the receiver, a
/// burn debits the sender, a transfer debits the sender and then credits the
/// receiver; debits are clamped at zero. Call it only for an event that was
/// just newly appended to the log.
pub fn apply_transfer_effects(store: &mut Store, t: &Transfer)
    requires
        store_wf(old(store)@),
    ensures
        store_wf(final(store)@),
        final(store)@ == (LedgerTables {
            accounts: accounts_after_effects(old(store)@.accounts, t@),
            ..old(store)@
        }),
{
    match t.event_type {
        EventKind::Mint => {
            upsert_balance(store, &t.to_address, &t.token_address, &t.amount, true, t.block_number);
        },
        EventKind::Burn => {
            upsert_balance(store, &t.from_address, &t.token_address, &t.amount, false, t.block_number);
        },
        EventKind::Transfer => {
            upsert_balance(store, &t.from_address, &t.token_address, &t.amount, false, t.block_number);
            upsert_balance(store, &t.to_address, &t.token_address, &t.amount, true, t.block_number);
        },
    }
}

/// Appends `t` to the log unless an event with its transaction hash and log
/// index is already there; tells whether it was appended.
fn append_transfer(store: &mut Store, t: &Transfer) -> (r: bool)
    requires
        store_wf(old(store)@),
    ensures
        store_wf(final(store)@),
        r == !log_has(old(store)@.transfers, t@.transaction_hash, t@.log_index),
        final(store)@ == (LedgerTables { transfers: appended(old(store)@.transfers, t@), ..old(store)@ }),
{
    let found = find_transfer(&store.transfers, &t.transaction_hash, t.log_index);
    match found {
        Some(i) => {
            proof {
                assert(old(store)@.transfers[i as int] == store.transfers@[i as int]@);
            }
            false
        },
        None => {
            let ghost s = old(store)@.transfers;
            store.transfers.push(t.clone());
            proof {
                assert(transfer_views(store.transfers@) =~= s.push(t@));
                assert forall|k: int| 0 <= k < s.len() implies !transfer_key_is(
                    s[k],
                    t@.transaction_hash,
                    t@.log_index,
                ) by {}
                assert(transfers_unique(s.push(t@)));
            }
            true
        },
    }
}

/// Appends each event of the batch whose transaction hash and log index are
/// new; known ones are skipped.
pub fn insert_transfers_batch(store: &mut Store, transfers: &Vec<Transfer>)
    requires
        store_wf(old(store)@),
    ensures
        store_wf(final(store)@),
        final(store)@ == (LedgerTables {
            transfers: appended_all(old(store)@.transfers, transfer_views(transfers@)),
            ..old(store)@
        }),
{
    let ghost batch = transfer_views(transfers@);
    let mut i: usize = 0;
    while i < transfers.len()
        invariant
            i <= transfers@.len(),
            batch == transfer_views(transfers@),
            store_wf(store@),
            store@ == (LedgerTables {
                transfers: appended_all(old(store)@.transfers, batch.subrange(0, i as int)),
                ..old(store)@
            }),
        decreases transfers@.len() - i,
    {
        append_transfer(store, &transfers[i]);
        proof {
            assert(batch.subrange(0, i + 1).drop_last() =~= batch.subrange(0, i as int));
        }
        i = i + 1;
    }
    proof {
        assert(batch.subrange(0, i as int) =~= batch);
    }
}

/// Offers each event of the batch to the log and applies the balance effects
/// of exactly those that were newly appended.
pub fn ingest_transfers(store: &mut Store, transfers: &Vec<Transfer>)
    requires
        store_wf(old(store)@),
    ensures
        store_wf(final(store)@),
        (final(store)@.transfers, final(store)@.accounts) == ingested_all(
            old(store)@.transfers,
            old(store)@.accounts,
            transfer_views(transfers@),
        ),
        final(store)@.tokens == old(store)@.tokens,
        final(store)@.blocks == old(store)@.blocks,
        final(store)@.checkpoint == old(store)@.checkpoint,
{
    let ghost batch = transfer_views(transfers@);
    let mut i: usize = 0;
    while i < transfers.len()
        invariant
            i <= transfers@.len(),
            batch == transfer_views(transfers@),
            store_wf(store@),
            (store@.transfers, store@.accounts) == ingested_all(
                old(store)@.transfers,
                old(store)@.accounts,
                batch.subrange(0, i as int),
            ),
            store@.tokens == old(store)@.tokens,
            store@.blocks == old(store)@.blocks,
            store@.checkpoint == old(store)@.checkpoint,
        decreases transfers@.len() - i,
    {
        if append_transfer(store, &transfers[i]) {
            apply_transfer_effects(store, &transfers[i]);
        }
        proof {
            assert(batch.subrange(0, i + 1).drop_last() =~= batch.subrange(0, i as int));
        }
        i = i + 1;
    }
    proof {
        assert(batch.subrange(0, i as int) =~= batch);
    }
}

// ---- reorganisation ---------------------------------------------------------

/// The events at or below height `h`, in log order.
pub open spec fn transfers_up_to(s: Seq<TransferView>, h: i64) -> Seq<TransferView> {
    s.filter(|t: TransferView| t.block_number <= h)
}

/// The blocks at or below height `h`, in table order.
pub open spec fn blocks_up_to(s: Seq<IndexedBlockView>, h: i64) -> Seq<IndexedBlockView> {
    s.filter(|b: IndexedBlockView| b.block_number <= h)
}

/// Drops every event and every block above height `block_number`, for
/// rolling back after a chain reorganisation. Balances are left as they are.
pub fn delete_blocks_after(store: &mut Store, block_number: i64)
    requires
        store_wf(old(store)@),
    ensures
        store_wf(final(store)@),
        final(store)@ == (LedgerTables {
            transfers: transfers_up_to(old(store)@.transfers, block_number),
            blocks: blocks_up_to(old(store)@.blocks, block_number),
            ..old(store)@
        }),
{
    let ghost s = old(store)@.transfers;
    let mut kept: Vec<Transfer> = Vec::new();
    let mut i: usize = 0;
    while i < store.transfers.len()
        invariant
            i <= store.transfers@.len(),
            store@ == old(store)@,
            s == store@.transfers,
            transfers_unique(s),
            transfer_views(kept@) == transfers_up_to(s.subrange(0, i as int), block_number),
            forall|j: int|
                0 <= j < kept@.len() ==> exists|k: int|
                    0 <= k < i && #[trigger] kept@[j]@ == s[k],
            transfers_unique(transfer_views(kept@)),
        decreases store.transfers@.len() - i,
    {
        let ghost before = kept@;
        proof {
            assert(s[i as int] == store.transfers@[i as int]@);
        }
        if store.transfers[i].block_number <= block_number {
            let t = store.transfers[i].clone();
            kept.push(t);
            proof {
                assert(transfer_views(kept@) =~= transfer_views(before).push(s[i as int]));
                assert forall|j: int| 0 <= j < before.len() implies !transfer_key_is(
                    before[j]@,
                    s[i as int].transaction_hash,
                    s[i as int].log_index,
                ) by {
                    let k = choose|k: int| 0 <= k < i && before[j]@ == s[k];
                }
                assert forall|j: int| 0 <= j < kept@.len() implies exists|k: int|
                    0 <= k < i + 1 && #[trigger] kept@[j]@ == s[k] by {
                    if j == before.len() {
                        assert(kept@[j]@ == s[i as int]);
                    } else {
                        assert(kept@[j] == before[j]);
                    }
                }
            }
        }
        proof {
            reveal(Seq::filter);
            let t = s.subrange(0, i + 1);
            assert(t.drop_last() =~= s.subrange(0, i as int));
            assert(t.last() == s[i as int]);
            assert(transfers_up_to(t, block_number) == if s[i as int].block_number <= block_number {
                transfers_up_to(s.subrange(0, i as int), block_number).push(s[i as int])
            } else {
                transfers_up_to(s.subrange(0, i as int), block_number)
            });
        }
        i = i + 1;
    }
    proof {
        assert(s.subrange(0, i as int) =~= s);
    }
    store.transfers = kept;

    let ghost b = old(store)@.blocks;
    let mut kept_blocks: Vec<IndexedBlock> = Vec::new();
    let mut i: usize = 0;
    while i < store.blocks.len()
        invariant
            i <= store.blocks@.len(),
            b == store@.blocks,
            blocks_unique(b),
            kept_blocks@.map_values(|x: IndexedBlock| x@) == blocks_up_to(b.subrange(0, i as int), block_number),
            forall|j: int|
                0 <= j < kept_blocks@.len() ==> exists|k: int|
                    0 <= k < i && #[trigger] kept_blocks@[j]@ == b[k],
            blocks_unique(kept_blocks@.map_values(|x: IndexedBlock| x@)),
        decreases store.blocks@.len() - i,
    {
        let ghost before = kept_blocks@;
        proof {
            assert(b[i as int] == store.blocks@[i as int]@);
        }
        if store.blocks[i].block_number <= block_number {
            let x = store.blocks[i].clone();
            kept_blocks.push(x);
            proof {
                assert(kept_blocks@.map_values(|x: IndexedBlock| x@) =~= before.map_values(
                    |x: IndexedBlock| x@,
                ).push(b[i as int]));
                assert forall|j: int| 0 <= j < before.len() implies before[j]@.block_number
                    != b[i as int].block_number by {
                    let k = choose|k: int| 0 <= k < i && before[j]@ == b[k];
                }
                assert forall|j: int| 0 <= j < kept_blocks@.len() implies exists|k: int|
                    0 <= k < i + 1 && #[trigger] kept_blocks@[j]@ == b[k] by {
                    if j == before.len() {
                        assert(kept_blocks@[j]@ == b[i as int]);
                    } else {
                        assert(kept_blocks@[j] == before[j]);
                    }
                }
            }
        }
        proof {
            reveal(Seq::filter);
            let t = b.subrange(0, i + 1);
            assert(t.drop_last() =~= b.subrange(0, i as int));
            assert(t.last() == b[i as int]);
            assert(blocks_up_to(t, block_number) == if b[i as int].block_number <= block_number {
                blocks_up_to(b.subrange(0, i as int), block_number).push(b[i as int])
            } else {
                blocks_up_to(b.subrange(0, i as int), block_number)
            });
        }
        i = i + 1;
    }
    proof {
        assert(b.subrange(0, i as int) =~= b);
    }
    store.blocks = kept_blocks;
}

/// The largest block number among the blocks, where there is one.
pub open spec fn is_latest_block(s: Seq<IndexedBlockView>, m: i64) -> bool {
    &&& exists|i: int| 0 <= i < s.len() && s[i].block_number == m
    &&& forall|i: int| 0 <= i < s.len() ==> s[i].block_number <= m
}

// ---- blocks ---------------------------------------------------------------

/// Records a block header, replacing the one recorded at the same height.
pub fn insert_block(store: &mut Store, block: &IndexedBlock)
    requires
        store_wf(old(store)@),
    ensures
        store_wf(final(store)@),
        final(store)@ == (LedgerTables { blocks: upserted_blocks(old(store)@.blocks, block@), ..old(store)@ }),
{
    let ghost s = old(store)@.blocks;
    let mut i: usize = 0;
    while i < store.blocks.len()
        invariant
            i <= store.blocks@.len(),
            store@ == old(store)@,
            s == store@.blocks,
            store_wf(store@),
            forall|j: int| 0 <= j < i ==> (#[trigger] s[j]).block_number != block.block_number,
        decreases store.blocks@.len() - i,
    {
        if store.blocks[i].block_number == block.block_number {
            proof {
                assert(s[i as int].block_number == block.block_number);
                assert(block_index(s, block.block_number) == i);
            }
            store.blocks.set(i, block.clone());
            proof {
                assert(store.blocks@.map_values(|x: IndexedBlock| x@) =~= s.update(i as int, block@));
            }
            return;
        }
        i = i + 1;
    }
    store.blocks.push(block.clone());
    proof {
        assert(store.blocks@.map_values(|x: IndexedBlock| x@) =~= s.push(block@));
    }
}

/// The highest recorded block number, or `None` where no block is recorded.
pub fn get_latest_block(store: &Store) -> (r: Option<i64>)
    ensures
        r is None == (store@.blocks.len() == 0),
        r matches Some(m) ==> is_latest_block(store@.blocks, m),
{
    let ghost s = store@.blocks;
    let mut best: Option<i64> = None;
    let mut i: usize = 0;
    while i < store.blocks.len()
        invariant
            i <= store.blocks@.len(),
            s == store@.blocks,
            best is None == (i == 0),
            best matches Some(m) ==> is_latest_block(s.subrange(0, i as int), m),
        decreases store.blocks@.len() - i,
    {
        let n = store.blocks[i].block_number;
        proof {
            assert(s[i as int].block_number == n);
        }
        let ghost prev = best;
        best = match best {
            Some(m) => if n > m { Some(n) } else { Some(m) },
            None => Some(n),
        };
        proof {
            let t = s.subrange(0, i + 1);
            let m = best->Some_0;
            assert(t[i as int] == s[i as int]);
            if let Some(pm) = prev {
                let u = s.subrange(0, i as int);
                let k = choose|k: int| 0 <= k < u.len() && u[k].block_number == pm;
                assert(t[k] == u[k]);
                assert forall|j: int| 0 <= j < t.len() implies t[j].block_number <= m by {
                    if j < i {
                        assert(t[j] == u[j]);
                    }
                }
            }
        }
        i = i + 1;
    }
    proof {
        assert(s.subrange(0, i as int) =~= s);
    }
    best
}

// ---- tokens ---------------------------------------------------------------

/// Registers a token unless its address is already known; a known token is
/// left exactly as it was.
pub fn insert_token(store: &mut Store, token: &Token)
    requires
        store_wf(old(store)@),
    ensures
        store_wf(final(store)@),
        final(store)@ == (LedgerTables {
            tokens: if token_index(old(store)@.tokens, token@.address) >= 0 {
                old(store)@.tokens
            } else {
                old(store)@.tokens.push(token@)
            },
            ..old(store)@
        }),
{
    let ghost s = old(store)@.tokens;
    match find_token(&store.tokens, &token.address) {
        Some(i) => {
            proof {
                assert(s[i as int] == store.tokens@[i as int]@);
            }
        },
        None => {
            store.tokens.push(token.clone());
            proof {
                assert(store.tokens@.map_values(|t: Token| t@) =~= s.push(token@));
            }
        },
    }
}

/// Where the token with this address stands in `tokens`.
fn find_token(tokens: &Vec<Token>, addr: &String) -> (r: Option<usize>)
    ensures
        r matches Some(i) ==> i < tokens@.len() && tokens@[i as int]@.address == addr@,
        r is None ==> forall|i: int| 0 <= i < tokens@.len() ==> (#[trigger] tokens@[i])@.address != addr@,
{
    let mut i: usize = 0;
    while i < tokens.len()
        invariant
            i <= tokens@.len(),
            forall|j: int| 0 <= j < i ==> (#[trigger] tokens@[j])@.address != addr@,
        decreases tokens@.len() - i,
    {
        if tokens[i].address == *addr {
            return Some(i);
        }
        i = i + 1;
    }
    None
}

/// The token registered under `address`.
pub fn get_token(store: &Store, address: &str) -> (r: Option<Token>)
    requires
        store_wf(store@),
    ensures
        r is Some == (token_index(store@.tokens, address@) >= 0),
        r matches Some(t) ==> t@ == store@.tokens[token_index(store@.tokens, address@)],
{
    let addr = String::from_str(address);
    let ghost s = store@.tokens;
    match find_token(&store.tokens, &addr) {
        Some(i) => {
            proof {
                assert(s[i as int] == store.tokens@[i as int]@);
                assert(token_index(s, address@) == i);
            }
            Some(store.tokens[i].clone())
        },
        None => {
            proof {
                assert forall|k: int| 0 <= k < s.len() implies s[k].address != address@ by {
                    assert(s[k] == store.tokens@[k]@);
                }
            }
            None
        },
    }
}

/// How many tokens are registered.
pub fn get_token_count(store: &Store) -> (r: usize)
    ensures
        r == store@.tokens.len(),
{
    store.tokens.len()
}

/// Sets the total supply of the token at `token_address` to the decimal text
/// `new_supply`; an unknown address changes nothing.
pub fn update_total_supply(store: &mut Store, token_address: &str, new_supply: &str) -> (r: Result<
    (),
    LedgerError,
>)
    requires
        store_wf(old(store)@),
    ensures
        store_wf(final(store)@),
        r is Ok == crate::amount::is_decimal_text(new_supply@),
        r matches Err(e) ==> e == LedgerError::InvalidAmount && final(store)@ == old(store)@,
        r is Ok ==> final(store)@ == (LedgerTables {
            tokens: {
                let s = old(store)@.tokens;
                let i = token_index(s, token_address@);
                if i >= 0 {
                    s.update(
                        i,
                        TokenView { total_supply: crate::amount::text_value(new_supply@), ..s[i] },
                    )
                } else {
                    s
                }
            },
            ..old(store)@
        }),
{
    let parsed = Amount::parse(new_supply);
    let supply = match parsed {
        Err(_) => {
            return Err(LedgerError::InvalidAmount);
        },
        Ok(a) => a,
    };
    let addr = String::from_str(token_address);
    let ghost s = old(store)@.tokens;
    match find_token(&store.tokens, &addr) {
        Some(i) => {
            proof {
                assert(s[i as int] == store.tokens@[i as int]@);
                assert(token_index(s, token_address@) == i);
            }
            let mut t = store.tokens[i].clone();
            t.total_supply = supply;
            store.tokens.set(i, t);
            proof {
                assert(store.tokens@.map_values(|t: Token| t@) =~= s.update(
                    i as int,
                    TokenView { total_supply: crate::amount::text_value(new_supply@), ..s[i as int] },
                ));
            }
        },
        None => {
            proof {
                assert forall|k: int| 0 <= k < s.len() implies s[k].address != token_address@ by {
                    assert(s[k] == store.tokens@[k]@);
                }
            }
        },
    }
    Ok(())
}

// ---- accounts and checkpoint ----------------------------------------------

/// The balance row of `address` in `token_address`.
pub fn get_account(store: &Store, address: &str, token_address: &str) -> (r: Option<Account>)
    requires
        store_wf(store@),
    ensures
        r is Some == (account_index(store@.accounts, address@, token_address@) >= 0),
        r matches Some(a) ==> a@ == store@.accounts[account_index(
            store@.accounts,
            address@,
            token_address@,
        )],
{
    let addr = String::from_str(address);
    let tok = String::from_str(token_address);
    let ghost s = store@.accounts;
    match find_account(&store.accounts, &addr, &tok) {
        Some(i) => {
            proof {
                assert(s[i as int] == store.accounts@[i as int]@);
                lemma_account_index(s, address@, token_address@, i as int);
            }
            Some(store.accounts[i].clone())
        },
        None => {
            proof {
                assert forall|k: int| 0 <= k < s.len() implies !account_key_is(
                    s[k],
                    address@,
                    token_address@,
                ) by {
                    assert(s[k] == store.accounts@[k]@);
                }
            }
            None
        },
    }
}

/// The highest block known to be fully applied.
pub fn get_last_indexed_block(store: &Store) -> (r: Result<i64, LedgerError>)
    ensures
        r is Ok == store@.checkpoint is Some,
        r matches Ok(n) ==> store@.checkpoint == Some(n),
        r matches Err(e) ==> e == LedgerError::NoCheckpoint,
{
    match store.checkpoint {
        Some(n) => Ok(n),
        None => Err(LedgerError::NoCheckpoint),
    }
}

/// Overwrites the progress checkpoint.
pub fn set_last_indexed_block(store: &mut Store, block_number: i64)
    requires
        store_wf(old(store)@),
    ensures
        store_wf(final(store)@),
        final(store)@ == (LedgerTables { checkpoint: Some(block_number), ..old(store)@ }),
{
    store.checkpoint = Some(block_number);
}

// ---- read-side listings ------------------------------------------------------

/// The at most `limit` newest events for `token` (every token for `None`),
/// newest first.
fn select_newest_transfers(log: &Vec<Transfer>, token: Option<&String>, limit: usize) -> (r: Vec<
    Transfer,
>)
    ensures
        newest_transfers(
            transfer_views(log@),
            match token {
                Some(a) => Some(a@),
                None => None,
            },
            limit as nat,
            transfer_views(r@),
        ),
{
    let ghost s = transfer_views(log@);
    let ghost tok: Option<Seq<char>> = match token {
        Some(a) => Some(a@),
        None => None,
    };
    let n = log.len();
    let mut taken: Vec<bool> = Vec::new();
    while taken.len() < n
        invariant
            taken@.len() <= n,
            forall|j: int| 0 <= j < taken@.len() ==> !taken@[j],
        decreases n - taken@.len(),
    {
        taken.push(false);
    }
    let mut out: Vec<Transfer> = Vec::new();
    let ghost mut idx: Seq<int> = Seq::empty();
    let mut done = false;
    while !done && out.len() < limit
        invariant
            tok == match token {
                Some(a) => Some(a@),
                None => None::<Seq<char>>,
            },
            n == log@.len(),
            s == transfer_views(log@),
            taken@.len() == n,
            forall|j: int| 0 <= j < n ==> (taken@[j] == idx.contains(j)),
            idx.len() == out@.len(),
            out@.len() <= limit,
            idx.no_duplicates(),
            forall|k: int|
                0 <= k < out@.len() ==> 0 <= #[trigger] idx[k] < n && transfer_admitted(s[idx[k]], tok)
                    && out@[k]@ == s[idx[k]],
            forall|k: int, l: int|
                0 <= k < l < out@.len() ==> transfer_order_le(out@[l]@, out@[k]@),
            forall|j: int|
                0 <= j < n && transfer_admitted(#[trigger] s[j], tok) && !taken@[j] && out@.len() > 0
                    ==> transfer_order_le(s[j], out@[out@.len() - 1]@),
            done ==> forall|j: int| 0 <= j < n && transfer_admitted(#[trigger] s[j], tok) ==> taken@[j],
        decreases limit - out@.len() + (if done { 0int } else { 1int }),
    {
        let mut best: Option<usize> = None;
        let mut j: usize = 0;
        while j < n
            invariant
                tok == match token {
                    Some(a) => Some(a@),
                    None => None::<Seq<char>>,
                },
                j <= n,
                n == log@.len(),
                s == transfer_views(log@),
                taken@.len() == n,
                best matches Some(b) ==> b < j && !taken@[b as int] && transfer_admitted(s[b as int], tok)
                    && forall|i: int|
                    0 <= i < j && !taken@[i] && transfer_admitted(#[trigger] s[i], tok)
                        ==> transfer_order_le(s[i], s[b as int]),
                best is None ==> forall|i: int|
                    0 <= i < j && transfer_admitted(#[trigger] s[i], tok) ==> taken@[i],
            decreases n - j,
        {
            proof {
                assert(s[j as int] == log@[j as int]@);
            }
            let admitted = match token {
                Some(a) => log[j].token_address == *a,
                None => true,
            };
            if !taken[j] && admitted {
                match best {
                    None => {
                        best = Some(j);
                    },
                    Some(b) => {
                        proof {
                            assert(s[b as int] == log@[b as int]@);
                        }
                        if log[b].block_number < log[j].block_number || (log[b].block_number
                            == log[j].block_number && log[b].log_index < log[j].log_index) {
                            best = Some(j);
                        }
                    },
                }
            }
            j = j + 1;
        }
        match best {
            None => {
                done = true;
            },
            Some(b) => {
                let ghost before = out@;
                let ghost old_idx = idx;
                let ghost old_taken = taken@;
                proof {
                    assert(s[b as int] == log@[b as int]@);
                    assert(!idx.contains(b as int));
                }
                taken.set(b, true);
                out.push(log[b].clone());
                proof {
                    idx = idx.push(b as int);
                    assert(idx.no_duplicates()) by {
                        assert forall|k: int, l: int|
                            0 <= k < idx.len() && 0 <= l < idx.len() && k != l implies idx[k] != idx[l] by {
                            if k < old_idx.len() && l < old_idx.len() {
                                assert(old_idx[k] != old_idx[l]);
                            } else if k < old_idx.len() {
                                assert(old_idx.contains(old_idx[k]));
                            } else if l < old_idx.len() {
                                assert(old_idx.contains(old_idx[l]));
                            }
                        }
                    }
                    assert forall|k: int| 0 <= k < out@.len() implies 0 <= #[trigger] idx[k] < n
                        && transfer_admitted(s[idx[k]], tok) && out@[k]@ == s[idx[k]] by {
                        if k < before.len() {
                            assert(out@[k] == before[k]);
                            assert(idx[k] == old_idx[k]);
                        }
                    }
                    assert forall|k: int, l: int| 0 <= k < l < out@.len() implies transfer_order_le(
                        out@[l]@,
                        out@[k]@,
                    ) by {
                        if l < before.len() {
                            assert(out@[l] == before[l]);
                            assert(out@[k] == before[k]);
                        } else {
                            let last = before.len() - 1;
                            assert(out@[k] == before[k]);
                            assert(out@[l]@ == s[b as int]);
                            assert(transfer_order_le(s[b as int], before[last]@));
                            if k < last {
                                assert(transfer_order_le(before[last]@, before[k]@));
                            }
                        }
                    }
                    assert forall|i: int| 0 <= i < n implies (taken@[i] == idx.contains(i)) by {
                        if i == b {
                            assert(idx[idx.len() - 1] == i);
                        } else {
                            assert(taken@[i] == old_taken[i]);
                            if old_idx.contains(i) {
                                let k = choose|k: int| 0 <= k < old_idx.len() && old_idx[k] == i;
                                assert(idx[k] == i);
                            }
                            if idx.contains(i) {
                                let k = choose|k: int| 0 <= k < idx.len() && idx[k] == i;
                                assert(old_idx[k] == i);
                            }
                        }
                    }
                    assert forall|j: int|
                        0 <= j < n && transfer_admitted(#[trigger] s[j], tok) && !taken@[j] && out@.len() > 0
                            implies transfer_order_le(s[j], out@[out@.len() - 1]@) by {
                        assert(!old_taken[j]);
                    }
                }
            },
        }
    }
    proof {
        let r = transfer_views(out@);
        assert(newest_transfers_at(s, tok, limit as nat, r, idx)) by {
            assert forall|k: int| 0 <= k < r.len() implies 0 <= #[trigger] idx[k] < s.len()
                && transfer_admitted(s[idx[k]], tok) && r[k] == s[idx[k]] by {}
            assert forall|k: int, l: int| 0 <= k < l < r.len() implies transfer_order_le(
                r[l],
                r[k],
            ) by {}
            assert forall|j: int|
                0 <= j < s.len() && transfer_admitted(#[trigger] s[j], tok) && !idx.contains(
                    j,
                ) implies r.len() == limit && (limit > 0 ==> transfer_order_le(s[j], r[r.len() - 1])) by {
                assert(!taken@[j]);
            }
        }
    }
    out
}

/// The at most `limit` rows of `token` with the largest positive balances,
/// largest first.
fn select_top_holders(log: &Vec<Account>, token: &String, limit: usize) -> (r: Vec<Account>)
    ensures
        top_holders(
            log@.map_values(|a: Account| a@),
            token@,
            limit as nat,
            r@.map_values(|a: Account| a@),
        ),
{
    let ghost s = log@.map_values(|a: Account| a@);
    let ghost tok: Seq<char> = token@;
    let n = log.len();
    let mut taken: Vec<bool> = Vec::new();
    while taken.len() < n
        invariant
            taken@.len() <= n,
            forall|j: int| 0 <= j < taken@.len() ==> !taken@[j],
        decreases n - taken@.len(),
    {
        taken.push(false);
    }
    let mut out: Vec<Account> = Vec::new();
    let ghost mut idx: Seq<int> = Seq::empty();
    let mut done = false;
    while !done && out.len() < limit
        invariant
            tok == token@,
            n == log@.len(),
            s == log@.map_values(|a: Account| a@),
            taken@.len() == n,
            forall|j: int| 0 <= j < n ==> (taken@[j] == idx.contains(j)),
            idx.len() == out@.len(),
            out@.len() <= limit,
            idx.no_duplicates(),
            forall|k: int|
                0 <= k < out@.len() ==> 0 <= #[trigger] idx[k] < n && holder_admitted(s[idx[k]], tok)
                    && out@[k]@ == s[idx[k]],
            forall|k: int, l: int|
                0 <= k < l < out@.len() ==> (out@[l]@).balance <= (out@[k]@).balance,
            forall|j: int|
                0 <= j < n && holder_admitted(#[trigger] s[j], tok) && !taken@[j] && out@.len() > 0
                    ==> (s[j]).balance <= (out@[out@.len() - 1]@).balance,
            done ==> forall|j: int| 0 <= j < n && holder_admitted(#[trigger] s[j], tok) ==> taken@[j],
        decreases limit - out@.len() + (if done { 0int } else { 1int }),
    {
        let mut best: Option<usize> = None;
        let mut j: usize = 0;
        while j < n
            invariant
                tok == token@,
                j <= n,
                n == log@.len(),
                s == log@.map_values(|a: Account| a@),
                taken@.len() == n,
                best matches Some(b) ==> b < j && !taken@[b as int] && holder_admitted(s[b as int], tok)
                    && forall|i: int|
                    0 <= i < j && !taken@[i] && holder_admitted(#[trigger] s[i], tok)
                        ==> (s[i]).balance <= (s[b as int]).balance,
                best is None ==> forall|i: int|
                    0 <= i < j && holder_admitted(#[trigger] s[i], tok) ==> taken@[i],
            decreases n - j,
        {
            proof {
                assert(s[j as int] == log@[j as int]@);
            }
            let admitted = log[j].token_address == *token && !log[j].balance.is_zero();
            if !taken[j] && admitted {
                match best {
                    None => {
                        best = Some(j);
                    },
                    Some(b) => {
                        proof {
                            assert(s[b as int] == log@[b as int]@);
                        }
                        match log[b].balance.compare(&log[j].balance) {
                            core::cmp::Ordering::Less => {
                                best = Some(j);
                            },
                            _ => {},
                        }
                    },
                }
            }
            j = j + 1;
        }
        match best {
            None => {
                done = true;
            },
            Some(b) => {
                let ghost before = out@;
                let ghost old_idx = idx;
                let ghost old_taken = taken@;
                proof {
                    assert(s[b as int] == log@[b as int]@);
                    assert(!idx.contains(b as int));
                }
                taken.set(b, true);
                out.push(log[b].clone());
                proof {
                    idx = idx.push(b as int);
                    assert(idx.no_duplicates()) by {
                        assert forall|k: int, l: int|
                            0 <= k < idx.len() && 0 <= l < idx.len() && k != l implies idx[k] != idx[l] by {
                            if k < old_idx.len() && l < old_idx.len() {
                                assert(old_idx[k] != old_idx[l]);
                            } else if k < old_idx.len() {
                                assert(old_idx.contains(old_idx[k]));
                            } else if l < old_idx.len() {
                                assert(old_idx.contains(old_idx[l]));
                            }
                        }
                    }
                    assert forall|k: int| 0 <= k < out@.len() implies 0 <= #[trigger] idx[k] < n
                        && holder_admitted(s[idx[k]], tok) && out@[k]@ == s[idx[k]] by {
                        if k < before.len() {
                            assert(out@[k] == before[k]);
                            assert(idx[k] == old_idx[k]);
                        }
                    }
                    assert forall|k: int, l: int| 0 <= k < l < out@.len() implies (out@[l]@).balance <= (out@[k]@).balance by {
                        if l < before.len() {
                            assert(out@[l] == before[l]);
                            assert(out@[k] == before[k]);
                        } else {
                            let last = before.len() - 1;
                            assert(out@[k] == before[k]);
                            assert(out@[l]@ == s[b as int]);
                            assert((s[b as int]).balance <= (before[last]@).balance);
                            if k < last {
                                assert((before[last]@).balance <= (before[k]@).balance);
                            }
                        }
                    }
                    assert forall|i: int| 0 <= i < n implies (taken@[i] == idx.contains(i)) by {
                        if i == b {
                            assert(idx[idx.len() - 1] == i);
                        } else {
                            assert(taken@[i] == old_taken[i]);
                            if old_idx.contains(i) {
                                let k = choose|k: int| 0 <= k < old_idx.len() && old_idx[k] == i;
                                assert(idx[k] == i);
                            }
                            if idx.contains(i) {
                                let k = choose|k: int| 0 <= k < idx.len() && idx[k] == i;
                                assert(old_idx[k] == i);
                            }
                        }
                    }
                    assert forall|j: int|
                        0 <= j < n && holder_admitted(#[trigger] s[j], tok) && !taken@[j] && out@.len() > 0
                            implies (s[j]).balance <= (out@[out@.len() - 1]@).balance by {
                        assert(!old_taken[j]);
                    }
                }
            },
        }
    }
    proof {
        let r = out@.map_values(|a: Account| a@);
        assert(top_holders_at(s, tok, limit as nat, r, idx)) by {
            assert forall|k: int| 0 <= k < r.len() implies 0 <= #[trigger] idx[k] < s.len()
                && holder_admitted(s[idx[k]], tok) && r[k] == s[idx[k]] by {}
            assert forall|k: int, l: int| 0 <= k < l < r.len() implies (r[l]).balance <= (r[k]).balance by {}
            assert forall|j: int|
                0 <= j < s.len() && holder_admitted(#[trigger] s[j], tok) && !idx.contains(
                    j,
                ) implies r.len() == limit && (limit > 0 ==> (s[j]).balance <= (r[r.len() - 1]).balance) by {
                assert(!taken@[j]);
            }
        }
    }
    out
}

/// The at most `limit` newest events of the log, by block number and then
/// log index, newest first.
pub fn get_recent_transfers(store: &Store, limit: usize) -> (r: Vec<Transfer>)
    ensures
        newest_transfers(store@.transfers, None, limit as nat, transfer_views(r@)),
{
    select_newest_transfers(&store.transfers, None, limit)
}

/// The at most `limit` newest events of the token at `token_address`,
/// newest first.
pub fn get_token_transfers(store: &Store, token_address: &str, limit: usize) -> (r: Vec<Transfer>)
    ensures
        newest_transfers(store@.transfers, Some(token_address@), limit as nat, transfer_views(r@)),
{
    let tok = String::from_str(token_address);
    select_newest_transfers(&store.transfers, Some(&tok), limit)
}

/// The at most `limit` rows of the token at `token_address` with the largest
/// positive balances, largest first.
pub fn get_top_holders(store: &Store, token_address: &str, limit: usize) -> (r: Vec<Account>)
    ensures
        top_holders(store@.accounts, token_address@, limit as nat, r@.map_values(|a: Account| a@)),
{
    let tok = String::from_str(token_address);
    select_top_holders(&store.accounts, &tok, limit)
}

/// Whether `a` comes no later than `b` in character order.
fn symbol_le(a: &String, b: &String) -> (r: bool)
    ensures
        r == text_le(a@, b@),
{
    let sa = a.as_str();
    let sb = b.as_str();
    let la = sa.unicode_len();
    let lb = sb.unicode_len();
    let mut i: usize = 0;
    proof {
        assert(a@.subrange(0, la as int) =~= a@);
        assert(b@.subrange(0, lb as int) =~= b@);
    }
    while i < la && i < lb
        invariant
            i <= la,
            i <= lb,
            la == a@.len(),
            lb == b@.len(),
            sa@ == a@,
            sb@ == b@,
            text_le(a@, b@) == text_le(a@.subrange(i as int, la as int), b@.subrange(i as int, lb as int)),
        decreases la - i,
    {
        let ca = sa.get_char(i);
        let cb = sb.get_char(i);
        let ghost ta = a@.subrange(i as int, la as int);
        let ghost tb = b@.subrange(i as int, lb as int);
        proof {
            assert(ta[0] == ca);
            assert(tb[0] == cb);
        }
        if ca != cb {
            return ca < cb;
        }
        proof {
            assert(ta.drop_first() =~= a@.subrange(i + 1, la as int));
            assert(tb.drop_first() =~= b@.subrange(i + 1, lb as int));
        }
        i = i + 1;
    }
    i == la
}

/// Every registered token, ordered by symbol.
pub fn get_all_tokens(store: &Store) -> (r: Vec<Token>)
    ensures
        tokens_by_symbol(store@.tokens, r@.map_values(|t: Token| t@)),
{
    let ghost s = store@.tokens;
    let log = &store.tokens;
    let n = log.len();
    let mut taken: Vec<bool> = Vec::new();
    while taken.len() < n
        invariant
            taken@.len() <= n,
            forall|j: int| 0 <= j < taken@.len() ==> !taken@[j],
        decreases n - taken@.len(),
    {
        taken.push(false);
    }
    let mut out: Vec<Token> = Vec::new();
    let ghost mut idx: Seq<int> = Seq::empty();
    let mut done = false;
    while !done
        invariant
            n == log@.len(),
            s == log@.map_values(|t: Token| t@),
            taken@.len() == n,
            forall|j: int| 0 <= j < n ==> (taken@[j] == idx.contains(j)),
            idx.len() == out@.len(),
            out@.len() <= n,
            idx.no_duplicates(),
            forall|k: int| 0 <= k < out@.len() ==> 0 <= #[trigger] idx[k] < n && out@[k]@ == s[idx[k]],
            forall|k: int, l: int| 0 <= k < l < out@.len() ==> text_le(out@[k]@.symbol, out@[l]@.symbol),
            forall|j: int|
                0 <= j < n && !taken@[j] && out@.len() > 0 ==> text_le(
                    out@[out@.len() - 1]@.symbol,
                    (#[trigger] s[j]).symbol,
                ),
            done ==> forall|j: int| 0 <= j < n ==> taken@[j],
        decreases n - out@.len() + (if done { 0int } else { 1int }),
    {
        let mut best: Option<usize> = None;
        let mut j: usize = 0;
        while j < n
            invariant
                j <= n,
                n == log@.len(),
                s == log@.map_values(|t: Token| t@),
                taken@.len() == n,
                best matches Some(b) ==> b < j && !taken@[b as int] && forall|i: int|
                    0 <= i < j && !taken@[i] ==> text_le(s[b as int].symbol, (#[trigger] s[i]).symbol),
                best is None ==> forall|i: int| 0 <= i < j ==> taken@[i],
            decreases n - j,
        {
            proof {
                assert(s[j as int] == log@[j as int]@);
            }
            if !taken[j] {
                match best {
                    None => {
                        best = Some(j);
                        proof {
                            lemma_text_le_total(s[j as int].symbol, s[j as int].symbol);
                        }
                    },
                    Some(b) => {
                        proof {
                            assert(s[b as int] == log@[b as int]@);
                        }
                        if !symbol_le(&log[b].symbol, &log[j].symbol) {
                            proof {
                                lemma_text_le_total(s[b as int].symbol, s[j as int].symbol);
                                assert forall|i: int| 0 <= i < j + 1 && !taken@[i] implies text_le(
                                    s[j as int].symbol,
                                    (#[trigger] s[i]).symbol,
                                ) by {
                                    if i < j {
                                        lemma_text_le_transitive(
                                            s[j as int].symbol,
                                            s[b as int].symbol,
                                            s[i].symbol,
                                        );
                                    } else {
                                        lemma_text_le_total(s[i].symbol, s[i].symbol);
                                    }
                                }
                            }
                            best = Some(j);
                        }
                    },
                }
            }
            j = j + 1;
        }
        match best {
            None => {
                done = true;
            },
            Some(b) => {
                let ghost before = out@;
                let ghost old_idx = idx;
                let ghost old_taken = taken@;
                proof {
                    assert(s[b as int] == log@[b as int]@);
                    assert(!idx.contains(b as int));
                }
                taken.set(b, true);
                out.push(log[b].clone());
                proof {
                    idx = idx.push(b as int);
                    assert(idx.no_duplicates()) by {
                        assert forall|k: int, l: int|
                            0 <= k < idx.len() && 0 <= l < idx.len() && k != l implies idx[k] != idx[l] by {
                            if k < old_idx.len() && l < old_idx.len() {
                                assert(old_idx[k] != old_idx[l]);
                            } else if k < old_idx.len() {
                                assert(old_idx.contains(old_idx[k]));
                            } else if l < old_idx.len() {
                                assert(old_idx.contains(old_idx[l]));
                            }
                        }
                    }
                    assert forall|k: int| 0 <= k < out@.len() implies 0 <= #[trigger] idx[k] < n
                        && out@[k]@ == s[idx[k]] by {
                        if k < before.len() {
                            assert(out@[k] == before[k]);
                            assert(idx[k] == old_idx[k]);
                        }
                    }
                    assert forall|k: int, l: int| 0 <= k < l < out@.len() implies text_le(
                        out@[k]@.symbol,
                        out@[l]@.symbol,
                    ) by {
                        if l < before.len() {
                            assert(out@[l] == before[l]);
                            assert(out@[k] == before[k]);
                        } else {
                            let last = before.len() - 1;
                            assert(out@[k] == before[k]);
                            assert(out@[l]@ == s[b as int]);
                            assert(text_le(before[last]@.symbol, s[b as int].symbol));
                            if k < last {
                                lemma_text_le_transitive(
                                    before[k]@.symbol,
                                    before[last]@.symbol,
                                    s[b as int].symbol,
                                );
                            }
                        }
                    }
                    assert forall|i: int| 0 <= i < n implies (taken@[i] == idx.contains(i)) by {
                        if i == b {
                            assert(idx[idx.len() - 1] == i);
                        } else {
                            assert(taken@[i] == old_taken[i]);
                            if old_idx.contains(i) {
                                let k = choose|k: int| 0 <= k < old_idx.len() && old_idx[k] == i;
                                assert(idx[k] == i);
                            }
                            if idx.contains(i) {
                                let k = choose|k: int| 0 <= k < idx.len() && idx[k] == i;
                                assert(old_idx[k] == i);
                            }
                        }
                    }
                    assert forall|j: int|
                        0 <= j < n && !taken@[j] && out@.len() > 0 implies text_le(
                            out@[out@.len() - 1]@.symbol,
                            (#[trigger] s[j]).symbol,
                        ) by {
                        assert(!old_taken[j]);
                    }
                    assert(idx.to_set().subset_of(vstd::set_lib::set_int_range(0, n as int)));
                    idx.unique_seq_to_set();
                    vstd::set_lib::lemma_int_range(0, n as int);
                    vstd::set_lib::lemma_len_subset(
                        idx.to_set(),
                        vstd::set_lib::set_int_range(0, n as int),
                    );
                }
            },
        }
    }
    proof {
        let r = out@.map_values(|t: Token| t@);
        assert(tokens_by_symbol_at(s, r, idx));
    }
    out
}

} // verus!
