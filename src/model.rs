//! The records that the ledger keeps, and their mathematical views.
use vstd::prelude::*;
use crate::amount::Amount;
use vstd::string::StringExecFns;

verus! {

/// What a transfer event does to balances.
#[derive(Clone, Copy, Debug, PartialEq, Eq, Structural)]
pub enum EventKind {
    /// Credits the receiver.
    Mint,
    /// Debits the sender, clamped at zero.
    Burn,
    /// Debits the sender, clamped at zero, then credits the receiver.
    Transfer,
}

/// The stored name of an event kind.
pub open spec fn event_kind_text(k: EventKind) -> Seq<char> {
    match k {
        EventKind::Mint => seq!['m', 'i', 'n', 't'],
        EventKind::Burn => seq!['b', 'u', 'r', 'n'],
        EventKind::Transfer => seq!['t', 'r', 'a', 'n', 's', 'f', 'e', 'r'],
    }
}

impl EventKind {
    /// The kind stored as `s`: "mint", "burn" or "transfer".
    pub fn from_text(s: &str) -> (r: Option<EventKind>)
        ensures
            r matches Some(k) ==> event_kind_text(k) == s@,
            r is None ==> forall|k: EventKind| event_kind_text(k) != s@,
    {
        proof {
            reveal_strlit("mint");
            reveal_strlit("burn");
            reveal_strlit("transfer");
        }
        let t = String::from_str(s);
        let mint = String::from_str("mint");
        let burn = String::from_str("burn");
        let transfer = String::from_str("transfer");
        proof {
            assert("mint"@ =~= event_kind_text(EventKind::Mint));
            assert("burn"@ =~= event_kind_text(EventKind::Burn));
            assert("transfer"@ =~= event_kind_text(EventKind::Transfer));
        }
        if t == mint {
            Some(EventKind::Mint)
        } else if t == burn {
            Some(EventKind::Burn)
        } else if t == transfer {
            Some(EventKind::Transfer)
        } else {
            None
        }
    }

    /// The stored name of the kind.
    pub fn to_text(&self) -> (r: String)
        ensures
            r@ == event_kind_text(*self),
    {
        proof {
            reveal_strlit("mint");
            reveal_strlit("burn");
            reveal_strlit("transfer");
        }
        let r = match self {
            EventKind::Mint => String::from_str("mint"),
            EventKind::Burn => String::from_str("burn"),
            EventKind::Transfer => String::from_str("transfer"),
        };
        proof {
            assert(r@ =~= event_kind_text(*self));
        }
        r
    }
}

/// A token in the registry, keyed by its chain address.
pub struct Token {
    pub address: String,
    pub name: String,
    pub symbol: String,
    pub decimals: i32,
    pub currency: String,
    pub total_supply: Amount,
    pub created_at_block: i64,
    pub created_at_tx: String,
}

pub struct TokenView {
    pub address: Seq<char>,
    pub name: Seq<char>,
    pub symbol: Seq<char>,
    pub decimals: i32,
    pub currency: Seq<char>,
    pub total_supply: nat,
    pub created_at_block: i64,
    pub created_at_tx: Seq<char>,
}

impl View for Token {
    type V = TokenView;

    open spec fn view(&self) -> TokenView {
        TokenView {
            address: self.address@,
            name: self.name@,
            symbol: self.symbol@,
            decimals: self.decimals,
            currency: self.currency@,
            total_supply: self.total_supply@,
            created_at_block: self.created_at_block,
            created_at_tx: self.created_at_tx@,
        }
    }
}

impl Clone for Token {
    fn clone(&self) -> (r: Token)
        ensures
            r@ == self@,
    {
        Token {
            address: self.address.clone(),
            name: self.name.clone(),
            symbol: self.symbol.clone(),
            decimals: self.decimals,
            currency: self.currency.clone(),
            total_supply: self.total_supply.clone(),
            created_at_block: self.created_at_block,
            created_at_tx: self.created_at_tx.clone(),
        }
    }
}

/// One transfer event, identified by its transaction hash and log index.
pub struct Transfer {
    pub token_address: String,
    pub from_address: String,
    pub to_address: String,
    pub amount: Amount,
    pub memo: Option<String>,
    pub event_type: EventKind,
    pub transaction_hash: String,
    pub block_number: i64,
    pub log_index: i64,
    /// When the event was observed.
    pub timestamp: i64,
}

pub struct TransferView {
    pub token_address: Seq<char>,
    pub from_address: Seq<char>,
    pub to_address: Seq<char>,
    pub amount: nat,
    pub memo: Option<Seq<char>>,
    pub event_type: EventKind,
    pub transaction_hash: Seq<char>,
    pub block_number: i64,
    pub log_index: i64,
    pub timestamp: i64,
}

impl View for Transfer {
    type V = TransferView;

    open spec fn view(&self) -> TransferView {
        TransferView {
            token_address: self.token_address@,
            from_address: self.from_address@,
            to_address: self.to_address@,
            amount: self.amount@,
            memo: match self.memo {
                Some(m) => Some(m@),
                None => None,
            },
            event_type: self.event_type,
            transaction_hash: self.transaction_hash@,
            block_number: self.block_number,
            log_index: self.log_index,
            timestamp: self.timestamp,
        }
    }
}

impl Clone for Transfer {
    fn clone(&self) -> (r: Transfer)
        ensures
            r@ == self@,
    {
        let memo = match &self.memo {
            Some(m) => Some(m.clone()),
            None => None,
        };
        Transfer {
            token_address: self.token_address.clone(),
            from_address: self.from_address.clone(),
            to_address: self.to_address.clone(),
            amount: self.amount.clone(),
            memo,
            event_type: self.event_type,
            transaction_hash: self.transaction_hash.clone(),
            block_number: self.block_number,
            log_index: self.log_index,
            timestamp: self.timestamp,
        }
    }
}

/// The balance of one address in one token.
pub struct Account {
    pub address: String,
    pub token_address: String,
    pub balance: Amount,
    pub updated_at_block: i64,
}

pub struct AccountView {
    pub address: Seq<char>,
    pub token_address: Seq<char>,
    pub balance: nat,
    pub updated_at_block: i64,
}

impl View for Account {
    type V = AccountView;

    open spec fn view(&self) -> AccountView {
        AccountView {
            address: self.address@,
            token_address: self.token_address@,
            balance: self.balance@,
            updated_at_block: self.updated_at_block,
        }
    }
}

impl Clone for Account {
    fn clone(&self) -> (r: Account)
        ensures
            r@ == self@,
    {
        Account {
            address: self.address.clone(),
            token_address: self.token_address.clone(),
            balance: self.balance.clone(),
            updated_at_block: self.updated_at_block,
        }
    }
}

/// A block header seen at some chain height.
pub struct IndexedBlock {
    pub block_number: i64,
    pub block_hash: String,
    pub parent_hash: String,
    pub timestamp: i64,
}

pub struct IndexedBlockView {
    pub block_number: i64,
    pub block_hash: Seq<char>,
    pub parent_hash: Seq<char>,
    pub timestamp: i64,
}

impl View for IndexedBlock {
    type V = IndexedBlockView;

    open spec fn view(&self) -> IndexedBlockView {
        IndexedBlockView {
            block_number: self.block_number,
            block_hash: self.block_hash@,
            parent_hash: self.parent_hash@,
            timestamp: self.timestamp,
        }
    }
}

impl Clone for IndexedBlock {
    fn clone(&self) -> (r: IndexedBlock)
        ensures
            r@ == self@,
    {
        IndexedBlock {
            block_number: self.block_number,
            block_hash: self.block_hash.clone(),
            parent_hash: self.parent_hash.clone(),
            timestamp: self.timestamp,
        }
    }
}

/// Why a ledger operation failed.
#[derive(Clone, Copy, Debug, PartialEq, Eq, Structural)]
pub enum LedgerError {
    /// A text that should hold an amount is not a non-negative decimal.
    InvalidAmount,
    /// The progress checkpoint was read before it was ever set.
    NoCheckpoint,
}

} // verus!
