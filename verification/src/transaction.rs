//! Transactions as the engine sees them after signature checking.
use vstd::prelude::*;
use crate::types::SenderId;

verus! {

/// The virtual machine, or pair of machines, a user transaction runs on.
#[derive(Clone, Copy, Debug, PartialEq, Eq, Structural)]
pub enum TxType {
    EthereumTx,
    AptosTx,
    CrossTxAptosOrigin,
    CrossTxEthereumOrigin,
    PlaceholderTypeTx,
}

/// A user transaction whose signature has been checked.
#[derive(Clone, Debug)]
pub struct SignatureCheckedTransaction {
    pub sender: SenderId,
    pub sequence_number: u64,
    pub transaction_type: TxType,
    pub payload: Vec<u8>,
}

impl SignatureCheckedTransaction {
    /// A transaction with the given parts.
    pub fn new(sender: SenderId, sequence_number: u64, transaction_type: TxType, payload: Vec<u8>) -> (t: Self)
        ensures
            t.sender == sender,
            t.sequence_number == sequence_number,
            t.transaction_type == transaction_type,
            t.payload == payload,
    {
        SignatureCheckedTransaction { sender, sequence_number, transaction_type, payload }
    }

    /// Who sent the transaction.
    pub fn sender(&self) -> (s: SenderId)
        ensures
            s == self.sender,
    {
        self.sender
    }

    /// The nonce of the transaction.
    pub fn sequence_number(&self) -> (n: u64)
        ensures
            n == self.sequence_number,
    {
        self.sequence_number
    }
}

/// One entry of a block.
#[derive(Clone, Debug)]
pub enum PreprocessedTransaction {
    UserTransaction(SignatureCheckedTransaction),
    WaypointWriteSet(Vec<u8>),
    BlockMetadata(Vec<u8>),
    InvalidSignature,
    StateCheckpoint,
}

impl PreprocessedTransaction {
    /// Whether the lane dispatcher knows what to do with this entry.
    pub open spec fn is_dispatchable(&self) -> bool {
        match self {
            PreprocessedTransaction::UserTransaction(t) => t.transaction_type != TxType::PlaceholderTypeTx,
            PreprocessedTransaction::StateCheckpoint => true,
            _ => false,
        }
    }

    /// Executable form of [`Self::is_dispatchable`].
    pub fn can_dispatch(&self) -> (r: bool)
        ensures
            r == self.is_dispatchable(),
    {
        match self {
            PreprocessedTransaction::UserTransaction(t) => match t.transaction_type {
                TxType::PlaceholderTypeTx => false,
                _ => true,
            },
            PreprocessedTransaction::StateCheckpoint => true,
            _ => false,
        }
    }
}

} // verus!
