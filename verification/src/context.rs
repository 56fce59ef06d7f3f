//! The values an execution reads from its surroundings and the result it
//! hands back, with their mathematical views.

use vstd::prelude::*;
use crate::word::Word;
use crate::table::Table;

verus! {

/// A log record: the emitting address, the data and the topics.
#[derive(Clone, Debug, PartialEq)]
pub struct Log {
    pub address: Word,
    pub data: Vec<u8>,
    pub topics: Vec<Word>,
}

/// What an execution ends with. `stack` lists the stack from the bottom up,
/// except after a plain stop, where it lists it from the top down.
#[derive(Clone, Debug)]
pub struct EvmResult {
    pub stack: Vec<Word>,
    pub success: bool,
    pub logs: Vec<Log>,
    pub ret: Vec<u8>,
}

/// The transaction being executed; a missing field reads as absent.
#[derive(Clone, Debug)]
pub struct TxContext {
    pub to: Option<Word>,
    pub from: Option<Word>,
    pub origin: Option<Word>,
    pub gasprice: Option<Word>,
    pub value: Option<Word>,
    pub data: Option<Vec<u8>>,
}

/// The block the transaction is in.
#[derive(Clone, Copy, Debug)]
pub struct BlockContext {
    pub basefee: Option<Word>,
    pub coinbase: Option<Word>,
    pub timestamp: Option<Word>,
    pub number: Option<Word>,
    pub difficulty: Option<Word>,
    pub gaslimit: Option<Word>,
    pub chainid: Option<Word>,
}

/// An account of the world state.
#[derive(Clone, Debug)]
pub struct AccountInfo {
    pub balance: Option<Word>,
    pub code: Option<Vec<u8>>,
}

/// The world state: accounts by address.
#[derive(Clone)]
pub struct StateContext {
    pub accounts: Option<Table<AccountInfo>>,
}

/// Everything an execution reads besides its code.
#[derive(Clone)]
pub struct EvmContext {
    pub tx: Option<TxContext>,
    pub block: Option<BlockContext>,
    pub state: Option<StateContext>,
}

/// A log record as values.
pub struct LogView {
    pub address: Word,
    pub data: Seq<u8>,
    pub topics: Seq<Word>,
}

/// An execution result as values.
pub struct ResultView {
    pub stack: Seq<Word>,
    pub success: bool,
    pub logs: Seq<LogView>,
    pub ret: Seq<u8>,
}

/// A transaction as values; a missing transaction reads as all fields absent.
pub struct TxView {
    pub to: Option<Word>,
    pub from: Option<Word>,
    pub origin: Option<Word>,
    pub gasprice: Option<Word>,
    pub value: Option<Word>,
    pub data: Option<Seq<u8>>,
}

/// An account as values.
pub struct AccountView {
    pub balance: Option<Word>,
    pub code: Option<Seq<u8>>,
}

/// The surroundings of an execution as values. A missing block reads as a
/// block with all fields absent, a missing state as no accounts.
pub struct CtxView {
    pub tx: TxView,
    pub block: BlockContext,
    pub accounts: Map<Word, AccountView>,
}

impl View for Log {
    type V = LogView;

    open spec fn view(&self) -> LogView {
        LogView { address: self.address, data: self.data@, topics: self.topics@ }
    }
}

/// The values of a list of logs.
pub open spec fn logs_view(logs: Seq<Log>) -> Seq<LogView> {
    logs.map_values(|l: Log| l@)
}

impl View for EvmResult {
    type V = ResultView;

    open spec fn view(&self) -> ResultView {
        ResultView {
            stack: self.stack@,
            success: self.success,
            logs: logs_view(self.logs@),
            ret: self.ret@,
        }
    }
}

impl View for AccountInfo {
    type V = AccountView;

    open spec fn view(&self) -> AccountView {
        AccountView {
            balance: self.balance,
            code: match self.code {
                Some(c) => Some(c@),
                None => None,
            },
        }
    }
}

/// The transaction's values; all absent when there is no transaction.
pub open spec fn tx_view(tx: Option<TxContext>) -> TxView {
    match tx {
        Some(t) => TxView {
            to: t.to,
            from: t.from,
            origin: t.origin,
            gasprice: t.gasprice,
            value: t.value,
            data: match t.data {
                Some(d) => Some(d@),
                None => None,
            },
        },
        None => TxView { to: None, from: None, origin: None, gasprice: None, value: None, data: None },
    }
}

/// The block's values; all absent when there is no block.
pub open spec fn block_view(block: Option<BlockContext>) -> BlockContext {
    match block {
        Some(b) => b,
        None => BlockContext {
            basefee: None,
            coinbase: None,
            timestamp: None,
            number: None,
            difficulty: None,
            gaslimit: None,
            chainid: None,
        },
    }
}

/// The accounts of the state; none when there is no state or no account table.
pub open spec fn accounts_view(state: Option<StateContext>) -> Map<Word, AccountView> {
    match state {
        Some(s) => match s.accounts {
            Some(t) => t.contents().map_values(|a: AccountInfo| a@),
            None => Map::empty(),
        },
        None => Map::empty(),
    }
}

impl View for EvmContext {
    type V = CtxView;

    open spec fn view(&self) -> CtxView {
        CtxView {
            tx: tx_view(self.tx),
            block: block_view(self.block),
            accounts: accounts_view(self.state),
        }
    }
}

/// The account at `address`, if the state holds one.
pub(crate) fn account_at<'a>(state: &'a Option<StateContext>, address: &Word) -> (r: Option<
    &'a AccountInfo,
>)
    ensures
        match r {
            Some(a) => accounts_view(*state).contains_key(*address) && accounts_view(
                *state,
            )[*address] == a@,
            None => !accounts_view(*state).contains_key(*address),
        },
{
    match state {
        Some(s) => match &s.accounts {
            Some(t) => t.get(address),
            None => None,
        },
        None => None,
    }
}

/// The code of the account at `address`, if it has any.
pub(crate) fn code_at<'a>(state: &'a Option<StateContext>, address: &Word) -> (r: Option<
    &'a Vec<u8>,
>)
    ensures
        r matches Some(c) ==> code_of(accounts_view(*state), *address) == Some(c@),
        r is None ==> code_of(accounts_view(*state), *address) is None,
{
    match account_at(state, address) {
        Some(a) => match &a.code {
            Some(c) => Some(c),
            None => None,
        },
        None => None,
    }
}

/// The code of the account at `address`, if there is one with code.
pub open spec fn code_of(accounts: Map<Word, AccountView>, address: Word) -> Option<Seq<u8>> {
    if accounts.contains_key(address) {
        accounts[address].code
    } else {
        None
    }
}

/// The balance of the account at `address`, if there is one with a balance.
pub open spec fn balance_of(accounts: Map<Word, AccountView>, address: Word) -> Option<Word> {
    if accounts.contains_key(address) {
        accounts[address].balance
    } else {
        None
    }
}

/// The balance of the account at `address`, if it has one.
pub(crate) fn balance_at(state: &Option<StateContext>, address: &Word) -> (r: Option<Word>)
    ensures
        r == balance_of(accounts_view(*state), *address),
{
    match account_at(state, address) {
        Some(a) => a.balance,
        None => None,
    }
}

/// The call data of the transaction, if any.
pub(crate) fn tx_data<'a>(tx: &'a Option<TxContext>) -> (r: Option<&'a Vec<u8>>)
    ensures
        r matches Some(d) ==> tx_view(*tx).data == Some(d@),
        r is None ==> tx_view(*tx).data is None,
{
    match tx {
        Some(t) => match &t.data {
            Some(d) => Some(d),
            None => None,
        },
        None => None,
    }
}

/// The transaction's fields that are plain words.
pub(crate) fn tx_words(tx: &Option<TxContext>) -> (r: (
    Option<Word>,
    Option<Word>,
    Option<Word>,
    Option<Word>,
    Option<Word>,
))
    ensures
        r.0 == tx_view(*tx).to,
        r.1 == tx_view(*tx).from,
        r.2 == tx_view(*tx).origin,
        r.3 == tx_view(*tx).gasprice,
        r.4 == tx_view(*tx).value,
{
    match tx {
        Some(t) => (t.to, t.from, t.origin, t.gasprice, t.value),
        None => (None, None, None, None, None),
    }
}

/// The block's fields, all absent when there is no block.
pub(crate) fn block_fields(block: &Option<BlockContext>) -> (r: BlockContext)
    ensures
        r == block_view(*block),
{
    match block {
        Some(b) => *b,
        None => BlockContext {
            basefee: None,
            coinbase: None,
            timestamp: None,
            number: None,
            difficulty: None,
            gaslimit: None,
            chainid: None,
        },
    }
}

} // verus!
