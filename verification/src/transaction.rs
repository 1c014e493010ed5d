//! Operations that are collected first and applied together.
use vstd::prelude::*;
use crate::change::WriteOperation;

verus! {

/// Collected operations.
pub struct Transaction {
    operations: Vec<WriteOperation>,
    closed: bool,
}

/// The mathematical value of collected operations.
#[verifier::ext_equal]
pub struct TransactionModel {
    pub operations: Seq<WriteOperation>,
    pub closed: bool,
}

impl Transaction {
    pub closed spec fn view(&self) -> TransactionModel {
        TransactionModel { operations: self.operations@, closed: self.closed }
    }

    /// A transaction without operations.
    pub fn new() -> (r: Self)
        ensures
            r@ == (TransactionModel { operations: Seq::empty(), closed: false }),
    {
        Transaction { operations: Vec::new(), closed: false }
    }

    /// How many operations are waiting.
    pub fn count(&self) -> (r: usize)
        ensures
            r == self@.operations.len(),
    {
        self.operations.len()
    }

    /// Whether the transaction was committed or given up.
    pub fn is_closed(&self) -> (r: bool)
        ensures
            r == self@.closed,
    {
        self.closed
    }

    /// Adds an operation, which only an open transaction takes.
    pub fn stage(&mut self, operation: WriteOperation) -> (r: Result<(), String>)
        ensures
            old(self)@.closed ==> (r matches Err(e) && e@ == "transaction is already closed"@)
                && final(self)@ == old(self)@,
            !old(self)@.closed ==> r is Ok && final(self)@ == (TransactionModel {
                operations: old(self)@.operations.push(operation),
                closed: false,
            }),
    {
        if self.closed {
            return Err("transaction is already closed".to_owned());
        }
        self.operations.push(operation);
        Ok(())
    }

    /// Adds operations in their order. A closed transaction refuses the first of them, so without
    /// any there is nothing to refuse.
    pub fn stage_all(&mut self, operations: Vec<WriteOperation>) -> (r: Result<usize, String>)
        ensures
            old(self)@.closed && operations@.len() > 0 ==> (r matches Err(e) && e@
                == "transaction is already closed"@) && final(self)@ == old(self)@,
            !(old(self)@.closed && operations@.len() > 0) ==> r == Ok::<usize, String>(
                operations@.len() as usize,
            ) && final(self)@ == (TransactionModel {
                operations: old(self)@.operations + operations@,
                closed: old(self)@.closed,
            }),
    {
        let mut operations = operations;
        let count: usize = operations.len();
        if self.closed && count > 0 {
            return Err("transaction is already closed".to_owned());
        }
        self.operations.append(&mut operations);
        Ok(count)
    }

    /// Closes the transaction and hands out its operations, which are to be applied together. A
    /// closed one has none left.
    pub fn commit(&mut self) -> (r: Vec<WriteOperation>)
        ensures
            r@ == if old(self)@.closed {
                Seq::empty()
            } else {
                old(self)@.operations
            },
            final(self)@ == (TransactionModel {
                operations: if old(self)@.closed {
                    old(self)@.operations
                } else {
                    Seq::empty()
                },
                closed: true,
            }),
    {
        let mut out: Vec<WriteOperation> = Vec::new();
        if !self.closed {
            self.closed = true;
            out.append(&mut self.operations);
        }
        out
    }

    /// Closes the transaction and forgets its operations.
    pub fn rollback(&mut self)
        ensures
            final(self)@ == (TransactionModel { operations: Seq::empty(), closed: true }),
    {
        self.closed = true;
        self.operations = Vec::new();
    }
}

} // verus!
