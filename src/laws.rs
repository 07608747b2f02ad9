//! Laws that relate the ledger's operations to one another.
use vstd::prelude::*;
use crate::amount::{
    canonical_text, clamped_difference, is_decimal_text, lemma_canonical_text, text_value,
};
use crate::ledger::{
    accounts_unique, appended, balance_after, balance_effect, balance_of, ingested, ingested_all,
    lemma_accounts_after_effects, log_has, transfer_key_is,
};
use crate::model::{EventKind, IndexedBlockView, TransferView};
use crate::store::{blocks_up_to, is_latest_block, transfers_up_to};

verus! {

/// Parsing a decimal text, writing the amount back as its canonical text and
/// parsing that text again gives the same amount.
pub proof fn lemma_parse_to_text_round_trip(a: Seq<char>)
    requires
        is_decimal_text(a),
    ensures
        is_decimal_text(canonical_text(text_value(a))),
        text_value(canonical_text(text_value(a))) == text_value(a),
{
    lemma_canonical_text(text_value(a));
}

/// Subtracting an amount from itself gives zero, and so does subtracting any
/// amount from zero.
pub proof fn lemma_subtract_clamped_zero(a: nat)
    ensures
        clamped_difference(a, a) == 0,
        clamped_difference(0, a) == 0,
{
}

/// Offering the same event twice leaves the log and every account exactly as
/// offering it once; the same holds of the log alone.
pub proof fn lemma_ingest_idempotent(
    log: Seq<TransferView>,
    accs: Seq<crate::model::AccountView>,
    t: TransferView,
)
    ensures
        ingested_all(log, accs, seq![t, t]) == ingested_all(log, accs, seq![t]),
        appended(appended(log, t), t) == appended(log, t),
{
    let b1 = seq![t];
    let b2 = seq![t, t];
    assert(b2.drop_last() =~= b1);
    assert(b1.drop_last() =~= Seq::<TransferView>::empty());
    let once = ingested(log, accs, t);
    assert(log_has(once.0, t.transaction_hash, t.log_index)) by {
        if !log_has(log, t.transaction_hash, t.log_index) {
            assert(transfer_key_is(once.0[log.len() as int], t.transaction_hash, t.log_index));
        }
    }
    assert(ingested_all(log, accs, Seq::<TransferView>::empty()) == (log, accs));
    assert(ingested_all(log, accs, b1) == once);
    assert(ingested_all(log, accs, b2) == ingested(once.0, once.1, t));
    assert(log_has(appended(log, t), t.transaction_hash, t.log_index)) by {
        if !log_has(log, t.transaction_hash, t.log_index) {
            assert(transfer_key_is(appended(log, t)[log.len() as int], t.transaction_hash, t.log_index));
        }
    }
}

/// Every event of `batch` has a key that is in neither `log` nor elsewhere in
/// the batch: each is applied exactly once.
pub open spec fn fresh_batch(log: Seq<TransferView>, batch: Seq<TransferView>) -> bool {
    &&& forall|i: int|
        0 <= i < batch.len() ==> !log_has(log, #[trigger] batch[i].transaction_hash, batch[i].log_index)
    &&& forall|i: int, j: int|
        0 <= i < batch.len() && 0 <= j < batch.len() && i != j ==> !transfer_key_is(
            batch[i],
            batch[j].transaction_hash,
            batch[j].log_index,
        )
}

/// What one event credits to `addr` in `tok`.
pub open spec fn credit_of(t: TransferView, addr: Seq<char>, tok: Seq<char>) -> nat {
    if t.token_address == tok && t.to_address == addr && t.event_type != EventKind::Burn {
        t.amount
    } else {
        0
    }
}

/// What one event debits from `addr` in `tok`.
pub open spec fn debit_of(t: TransferView, addr: Seq<char>, tok: Seq<char>) -> nat {
    if t.token_address == tok && t.from_address == addr && t.event_type != EventKind::Mint {
        t.amount
    } else {
        0
    }
}

/// The sum of the credits less the sum of the debits of `addr` in `tok`.
pub open spec fn net_sum(ts: Seq<TransferView>, addr: Seq<char>, tok: Seq<char>) -> int
    decreases ts.len(),
{
    if ts.len() == 0 {
        0
    } else {
        net_sum(ts.drop_last(), addr, tok) + credit_of(ts.last(), addr, tok) - debit_of(
            ts.last(),
            addr,
            tok,
        )
    }
}

/// No event debits more than what the earlier events left to `addr` in `tok`.
pub open spec fn never_overdrawn(ts: Seq<TransferView>, addr: Seq<char>, tok: Seq<char>) -> bool {
    forall|k: int|
        0 <= k < ts.len() ==> debit_of(#[trigger] ts[k], addr, tok) <= net_sum(
            ts.subrange(0, k),
            addr,
            tok,
        )
}

/// Offering a batch of fresh events appends them all, in order, and moves each
/// balance as the events' effects in order say.
pub proof fn lemma_ingest_fresh_batch(
    log: Seq<TransferView>,
    accs: Seq<crate::model::AccountView>,
    batch: Seq<TransferView>,
    addr: Seq<char>,
    tok: Seq<char>,
)
    requires
        accounts_unique(accs),
        fresh_batch(log, batch),
    ensures
        ingested_all(log, accs, batch).0 == log + batch,
        accounts_unique(ingested_all(log, accs, batch).1),
        balance_of(ingested_all(log, accs, batch).1, addr, tok) == balance_after(
            balance_of(accs, addr, tok),
            batch,
            addr,
            tok,
        ),
    decreases batch.len(),
{
    if batch.len() == 0 {
        assert(log + batch =~= log);
    } else {
        let rest = batch.drop_last();
        let e = batch.last();
        assert(fresh_batch(log, rest)) by {
            assert forall|i: int| 0 <= i < rest.len() implies !log_has(
                log,
                #[trigger] rest[i].transaction_hash,
                rest[i].log_index,
            ) by {
                assert(rest[i] == batch[i]);
            }
        }
        lemma_ingest_fresh_batch(log, accs, rest, addr, tok);
        let p = ingested_all(log, accs, rest);
        assert(!log_has(p.0, e.transaction_hash, e.log_index)) by {
            if log_has(p.0, e.transaction_hash, e.log_index) {
                let i = choose|i: int|
                    0 <= i < p.0.len() && transfer_key_is(p.0[i], e.transaction_hash, e.log_index);
                if i < log.len() {
                    assert(p.0[i] == log[i]);
                    assert(!log_has(log, batch[batch.len() - 1].transaction_hash, batch[batch.len() - 1].log_index));
                } else {
                    assert(p.0[i] == batch[i - log.len()]);
                }
            }
        }
        assert(p.0.push(e) =~= log + batch);
        lemma_accounts_after_effects(p.1, e);
    }
}

/// Without overdrafts, the balance reached from zero is the sum of the
/// credits less the sum of the debits, which is then never negative.
pub proof fn lemma_balance_is_net_sum(ts: Seq<TransferView>, addr: Seq<char>, tok: Seq<char>)
    requires
        never_overdrawn(ts, addr, tok),
    ensures
        net_sum(ts, addr, tok) >= 0,
        balance_after(0, ts, addr, tok) == net_sum(ts, addr, tok),
    decreases ts.len(),
{
    if ts.len() > 0 {
        let rest = ts.drop_last();
        let e = ts.last();
        assert(never_overdrawn(rest, addr, tok)) by {
            assert forall|k: int| 0 <= k < rest.len() implies debit_of(#[trigger] rest[k], addr, tok)
                <= net_sum(rest.subrange(0, k), addr, tok) by {
                assert(rest[k] == ts[k]);
                assert(rest.subrange(0, k) =~= ts.subrange(0, k));
            }
        }
        lemma_balance_is_net_sum(rest, addr, tok);
        assert(ts.subrange(0, ts.len() - 1) =~= rest);
        assert(debit_of(ts[ts.len() - 1], addr, tok) <= net_sum(rest, addr, tok));
        let b = balance_after(0, rest, addr, tok);
        assert(balance_after(0, ts, addr, tok) == balance_effect(b, e, addr, tok));
    }
}

/// For events applied exactly once to an address that held nothing, and with
/// no debit above what the earlier events left, the balance is the sum of the
/// credits less the sum of the debits.
pub proof fn lemma_balance_sum_invariant(
    log: Seq<TransferView>,
    accs: Seq<crate::model::AccountView>,
    batch: Seq<TransferView>,
    addr: Seq<char>,
    tok: Seq<char>,
)
    requires
        accounts_unique(accs),
        fresh_batch(log, batch),
        balance_of(accs, addr, tok) == 0,
        never_overdrawn(batch, addr, tok),
    ensures
        net_sum(batch, addr, tok) >= 0,
        balance_of(ingested_all(log, accs, batch).1, addr, tok) == net_sum(batch, addr, tok),
{
    lemma_ingest_fresh_batch(log, accs, batch, addr, tok);
    lemma_balance_is_net_sum(batch, addr, tok);
}

/// After rolling back to height `h`, no event and no block above `h` is left,
/// and the latest recorded block is at most `h`.
pub proof fn lemma_rollback_bound(transfers: Seq<TransferView>, blocks: Seq<IndexedBlockView>, h: i64)
    ensures
        forall|i: int|
            0 <= i < transfers_up_to(transfers, h).len() ==> (#[trigger] transfers_up_to(
                transfers,
                h,
            )[i]).block_number <= h,
        forall|i: int|
            0 <= i < blocks_up_to(blocks, h).len() ==> (#[trigger] blocks_up_to(
                blocks,
                h,
            )[i]).block_number <= h,
        forall|m: i64| #[trigger] is_latest_block(blocks_up_to(blocks, h), m) ==> m <= h,
{
    let pt = |t: TransferView| t.block_number <= h;
    let pb = |b: IndexedBlockView| b.block_number <= h;
    assert forall|i: int| 0 <= i < transfers_up_to(transfers, h).len() implies (
    #[trigger] transfers_up_to(transfers, h)[i]).block_number <= h by {
        transfers.lemma_filter_pred(pt, i);
    }
    assert forall|i: int| 0 <= i < blocks_up_to(blocks, h).len() implies (#[trigger] blocks_up_to(
        blocks,
        h,
    )[i]).block_number <= h by {
        blocks.lemma_filter_pred(pb, i);
    }
    assert forall|m: i64| #[trigger] is_latest_block(blocks_up_to(blocks, h), m) implies m <= h by {
        let s = blocks_up_to(blocks, h);
        let i = choose|i: int| 0 <= i < s.len() && s[i].block_number == m;
        blocks.lemma_filter_pred(pb, i);
    }
}

} // verus!
