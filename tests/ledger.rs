use storage::amount::Amount;
use storage::model::{EventKind, IndexedBlock, LedgerError, Token, Transfer};
use storage::store::{
    apply_transfer_effects, delete_blocks_after, get_account, get_all_tokens,
    get_last_indexed_block, get_latest_block, get_recent_transfers, get_token, get_token_count,
    get_token_transfers, get_top_holders, ingest_transfers, insert_block, insert_token,
    insert_transfers_batch, set_last_indexed_block, update_total_supply, upsert_account_balance,
    Store,
};

const ZERO: &str = "0x0000000000000000000000000000000000000000";
const TOKEN: &str = "0xtoken";
const A: &str = "0xaaaa";
const B: &str = "0xbbbb";

fn transfer(kind: EventKind, from: &str, to: &str, amount: &str, tx: &str, log_index: i64, block: i64) -> Transfer {
    Transfer {
        token_address: TOKEN.to_string(),
        from_address: from.to_string(),
        to_address: to.to_string(),
        amount: Amount::parse(amount).unwrap(),
        memo: None,
        event_type: kind,
        transaction_hash: tx.to_string(),
        block_number: block,
        log_index,
        timestamp: 1_700_000_000 + block,
    }
}

fn block(n: i64) -> IndexedBlock {
    IndexedBlock {
        block_number: n,
        block_hash: format!("0xhash{}", n),
        parent_hash: format!("0xhash{}", n - 1),
        timestamp: 1_700_000_000 + n,
    }
}

fn balance(store: &Store, addr: &str) -> String {
    match get_account(store, addr, TOKEN) {
        Some(a) => a.balance.to_text(),
        None => "0".to_string(),
    }
}

fn token(address: &str, symbol: &str) -> Token {
    Token {
        address: address.to_string(),
        name: format!("{} token", symbol),
        symbol: symbol.to_string(),
        decimals: 18,
        currency: "USD".to_string(),
        total_supply: Amount::parse("1000").unwrap(),
        created_at_block: 1,
        created_at_tx: "0xcreate".to_string(),
    }
}

fn mint_a() -> Transfer {
    transfer(EventKind::Mint, ZERO, A, "100", "0xt1", 0, 10)
}

fn send_a_b() -> Transfer {
    transfer(EventKind::Transfer, A, B, "30", "0xt2", 0, 11)
}

fn burn_b() -> Transfer {
    transfer(EventKind::Burn, B, ZERO, "1000", "0xt3", 0, 12)
}

/// Runs the first `n` end-to-end steps, each with its block recorded.
fn run_steps(n: usize) -> Store {
    let mut store = Store::new();
    let steps = [mint_a(), send_a_b(), send_a_b(), burn_b()];
    for t in steps.iter().take(n) {
        insert_block(&mut store, &block(t.block_number));
        ingest_transfers(&mut store, &vec![t.clone()]);
    }
    store
}

#[test]
fn step_mint_credits_receiver() {
    let store = run_steps(1);
    assert_eq!(balance(&store, A), "100");
}

#[test]
fn step_transfer_moves_balance() {
    let store = run_steps(2);
    assert_eq!(balance(&store, A), "70");
    assert_eq!(balance(&store, B), "30");
}

#[test]
fn step_redelivery_changes_nothing() {
    let store = run_steps(3);
    assert_eq!(balance(&store, A), "70");
    assert_eq!(balance(&store, B), "30");
}

#[test]
fn step_burn_is_clamped_at_zero() {
    let store = run_steps(4);
    assert_eq!(balance(&store, B), "0");
    assert_eq!(balance(&store, A), "70");
}

#[test]
fn step_rollback_keeps_balances() {
    let mut store = run_steps(4);
    delete_blocks_after(&mut store, 10);
    let latest = get_latest_block(&store);
    assert_eq!(latest, Some(10));
    // only the mint at block 10 is left in the log: offering it again is a no-op
    ingest_transfers(&mut store, &vec![mint_a()]);
    assert_eq!(balance(&store, A), "70");
    assert_eq!(balance(&store, B), "0");
    // the later events are gone from the log, so replaying one applies it again
    ingest_transfers(&mut store, &vec![send_a_b()]);
    assert_eq!(balance(&store, A), "40");
    assert_eq!(balance(&store, B), "30");
}

#[test]
fn same_event_twice_equals_once() {
    let mut once = Store::new();
    ingest_transfers(&mut once, &vec![mint_a(), send_a_b()]);
    let mut twice = Store::new();
    ingest_transfers(&mut twice, &vec![mint_a(), send_a_b(), send_a_b(), mint_a()]);
    assert_eq!(balance(&once, A), balance(&twice, A));
    assert_eq!(balance(&once, B), balance(&twice, B));
    assert_eq!(balance(&twice, A), "70");
    assert_eq!(get_account(&twice, A, TOKEN).unwrap().updated_at_block, 11);
}

#[test]
fn balance_is_credits_less_debits() {
    let mut store = Store::new();
    let events = vec![
        transfer(EventKind::Mint, ZERO, A, "500", "0xa", 0, 1),
        transfer(EventKind::Transfer, A, B, "120", "0xb", 0, 2),
        transfer(EventKind::Transfer, B, A, "20", "0xb", 1, 2),
        transfer(EventKind::Burn, A, ZERO, "100", "0xc", 0, 3),
        transfer(EventKind::Mint, ZERO, B, "7", "0xd", 0, 4),
    ];
    ingest_transfers(&mut store, &events);
    assert_eq!(balance(&store, A), "300");
    assert_eq!(balance(&store, B), "107");
}

#[test]
fn overdrawn_debit_is_clamped_per_event() {
    let mut store = Store::new();
    ingest_transfers(
        &mut store,
        &vec![
            transfer(EventKind::Burn, A, ZERO, "10", "0xa", 0, 1),
            transfer(EventKind::Mint, ZERO, A, "10", "0xb", 0, 2),
        ],
    );
    assert_eq!(balance(&store, A), "10");
}

#[test]
fn rollback_removes_later_blocks() {
    let mut store = Store::new();
    for n in [8, 9, 10, 11, 12] {
        insert_block(&mut store, &block(n));
    }
    delete_blocks_after(&mut store, 9);
    assert_eq!(get_latest_block(&store), Some(9));
    delete_blocks_after(&mut store, 3);
    assert_eq!(get_latest_block(&store), None);
}

#[test]
fn latest_block_is_maximum() {
    let mut store = Store::new();
    assert_eq!(get_latest_block(&store), None);
    for n in [5, 17, 3] {
        insert_block(&mut store, &block(n));
    }
    assert_eq!(get_latest_block(&store), Some(17));
}

#[test]
fn insert_block_replaces_same_height() {
    let mut store = Store::new();
    insert_block(&mut store, &block(5));
    let mut other = block(5);
    other.block_hash = "0xother".to_string();
    insert_block(&mut store, &other);
    insert_block(&mut store, &block(6));
    delete_blocks_after(&mut store, 5);
    assert_eq!(get_latest_block(&store), Some(5));
}

#[test]
fn insert_token_first_write_wins() {
    let mut store = Store::new();
    insert_token(&mut store, &token("0x1", "AAA"));
    let mut renamed = token("0x1", "ZZZ");
    renamed.name = "other".to_string();
    insert_token(&mut store, &renamed);
    insert_token(&mut store, &token("0x2", "BBB"));
    assert_eq!(get_token_count(&store), 2);
    let t = get_token(&store, "0x1").unwrap();
    assert_eq!(t.symbol, "AAA");
    assert_eq!(t.name, "AAA token");
    assert!(get_token(&store, "0x3").is_none());
}

#[test]
fn update_total_supply_overwrites() {
    let mut store = Store::new();
    insert_token(&mut store, &token("0x1", "AAA"));
    assert_eq!(update_total_supply(&mut store, "0x1", "0042"), Ok(()));
    assert_eq!(get_token(&store, "0x1").unwrap().total_supply.to_text(), "42");
    assert_eq!(update_total_supply(&mut store, "0x1", "4.2"), Err(LedgerError::InvalidAmount));
    assert_eq!(get_token(&store, "0x1").unwrap().total_supply.to_text(), "42");
    assert_eq!(update_total_supply(&mut store, "0x9", "7"), Ok(()));
    assert_eq!(get_token_count(&store), 1);
}

#[test]
fn upsert_account_balance_credits_and_debits() {
    let mut store = Store::new();
    assert_eq!(upsert_account_balance(&mut store, A, TOKEN, "50", true, 3), Ok(()));
    assert_eq!(upsert_account_balance(&mut store, A, TOKEN, "20", false, 4), Ok(()));
    assert_eq!(balance(&store, A), "30");
    assert_eq!(get_account(&store, A, TOKEN).unwrap().updated_at_block, 4);
    assert_eq!(upsert_account_balance(&mut store, B, TOKEN, "20", false, 5), Ok(()));
    let b = get_account(&store, B, TOKEN).unwrap();
    assert_eq!(b.balance.to_text(), "0");
    assert_eq!(b.updated_at_block, 5);
    assert_eq!(
        upsert_account_balance(&mut store, A, TOKEN, "x", true, 6),
        Err(LedgerError::InvalidAmount)
    );
    assert_eq!(balance(&store, A), "30");
}

#[test]
fn insert_transfers_batch_skips_duplicates_and_leaves_balances() {
    let mut store = Store::new();
    insert_transfers_batch(&mut store, &vec![mint_a(), mint_a(), send_a_b()]);
    assert!(get_account(&store, A, TOKEN).is_none());
    // both keys are now known, so ingesting them applies nothing
    ingest_transfers(&mut store, &vec![mint_a(), send_a_b()]);
    assert!(get_account(&store, A, TOKEN).is_none());
}

#[test]
fn apply_transfer_effects_transfer_debits_then_credits() {
    let mut store = Store::new();
    apply_transfer_effects(&mut store, &mint_a());
    apply_transfer_effects(&mut store, &send_a_b());
    assert_eq!(balance(&store, A), "70");
    assert_eq!(balance(&store, B), "30");
    apply_transfer_effects(&mut store, &transfer(EventKind::Transfer, A, A, "500", "0xs", 0, 13));
    assert_eq!(balance(&store, A), "500");
}

#[test]
fn checkpoint_must_be_set_before_read() {
    let mut store = Store::new();
    assert_eq!(get_last_indexed_block(&store), Err(LedgerError::NoCheckpoint));
    set_last_indexed_block(&mut store, 0);
    assert_eq!(get_last_indexed_block(&store), Ok(0));
    set_last_indexed_block(&mut store, 1234);
    assert_eq!(get_last_indexed_block(&store), Ok(1234));
}

fn other_token_transfer(tx: &str, block: i64) -> Transfer {
    let mut t = transfer(EventKind::Mint, ZERO, A, "1", tx, 0, block);
    t.token_address = "0xother".to_string();
    t
}

#[test]
fn recent_transfers_newest_first_with_limit() {
    let mut store = Store::new();
    insert_transfers_batch(
        &mut store,
        &vec![
            transfer(EventKind::Mint, ZERO, A, "1", "0xa", 0, 5),
            transfer(EventKind::Mint, ZERO, A, "1", "0xb", 2, 7),
            other_token_transfer("0xc", 9),
            transfer(EventKind::Mint, ZERO, A, "1", "0xd", 1, 7),
            transfer(EventKind::Mint, ZERO, A, "1", "0xe", 0, 6),
        ],
    );
    let r = get_recent_transfers(&store, 3);
    let keys: Vec<(String, i64, i64)> =
        r.iter().map(|t| (t.transaction_hash.clone(), t.block_number, t.log_index)).collect();
    assert_eq!(
        keys,
        vec![("0xc".to_string(), 9, 0), ("0xb".to_string(), 7, 2), ("0xd".to_string(), 7, 1)]
    );
    assert_eq!(get_recent_transfers(&store, 100).len(), 5);
    assert!(get_recent_transfers(&store, 0).is_empty());
}

#[test]
fn token_transfers_are_filtered_by_token() {
    let mut store = Store::new();
    insert_transfers_batch(
        &mut store,
        &vec![
            transfer(EventKind::Mint, ZERO, A, "1", "0xa", 0, 5),
            other_token_transfer("0xc", 9),
            transfer(EventKind::Mint, ZERO, A, "1", "0xe", 0, 6),
        ],
    );
    let r = get_token_transfers(&store, TOKEN, 10);
    let hashes: Vec<String> = r.iter().map(|t| t.transaction_hash.clone()).collect();
    assert_eq!(hashes, vec!["0xe".to_string(), "0xa".to_string()]);
    assert_eq!(get_token_transfers(&store, "0xother", 10).len(), 1);
    assert!(get_token_transfers(&store, "0xnone", 10).is_empty());
}

#[test]
fn top_holders_largest_positive_first() {
    let mut store = Store::new();
    upsert_account_balance(&mut store, A, TOKEN, "5", true, 1).unwrap();
    upsert_account_balance(&mut store, B, TOKEN, "50", true, 1).unwrap();
    upsert_account_balance(&mut store, "0xcccc", TOKEN, "9", false, 1).unwrap();
    upsert_account_balance(&mut store, "0xdddd", TOKEN, "100000000000000000000", true, 1).unwrap();
    upsert_account_balance(&mut store, "0xeeee", "0xother", "70", true, 1).unwrap();
    let r = get_top_holders(&store, TOKEN, 10);
    let holders: Vec<(String, String)> =
        r.iter().map(|a| (a.address.clone(), a.balance.to_text())).collect();
    assert_eq!(
        holders,
        vec![
            ("0xdddd".to_string(), "100000000000000000000".to_string()),
            (B.to_string(), "50".to_string()),
            (A.to_string(), "5".to_string()),
        ]
    );
    assert_eq!(get_top_holders(&store, TOKEN, 1).len(), 1);
    assert_eq!(get_top_holders(&store, TOKEN, 1)[0].address, "0xdddd");
}

#[test]
fn all_tokens_ordered_by_symbol() {
    let mut store = Store::new();
    assert!(get_all_tokens(&store).is_empty());
    insert_token(&mut store, &token("0x1", "USDC"));
    insert_token(&mut store, &token("0x2", "DAI"));
    insert_token(&mut store, &token("0x3", "USD"));
    insert_token(&mut store, &token("0x4", "AAVE"));
    let symbols: Vec<String> = get_all_tokens(&store).iter().map(|t| t.symbol.clone()).collect();
    assert_eq!(symbols, vec!["AAVE", "DAI", "USD", "USDC"]);
}
