use vstd::prelude::*;
use crate::block::Block;
use crate::transaction::Transaction;

verus! {

/// Typed message into the kernel: produce a block from transactions, take a
/// block received from outside, or exchange headers (sync placeholders, not
/// part of the kernel's work).
#[derive(Debug)]
pub enum MessageType {
    ProduceBlock(String, Vec<Transaction>),
    IncomingBlock(Block),
    GetHeaders,
    Headers(Vec<Block>),
}

/// Message envelope.
#[derive(Debug)]
pub struct Message {
    pub msg_type: MessageType,
}

} // verus!
