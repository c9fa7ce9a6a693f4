//! What a definition has taken in.

use crate::runtime::ast::model::ExprM;
use crate::runtime::ast::Expr;
use crate::runtime::interner::Symbol;
use crate::runtime::table::Plain;
use crate::runtime::txn::TxnId;
use vstd::prelude::*;

pub mod history;

verus! {

/// The identity of a change.
#[derive(Debug, Clone, Copy, PartialEq, Eq, Hash, Structural)]
pub struct ChangeId(pub u64);

impl DeepView for ChangeId {
    type V = ChangeId;

    open spec fn deep_view(&self) -> ChangeId {
        *self
    }
}

impl Plain for ChangeId {
    fn dup(&self) -> (r: Self) {
        *self
    }

    fn same(&self, other: &Self) -> (r: bool) {
        *self == *other
    }
}

/// A write to a variable.
#[derive(Debug, Clone)]
pub struct Assn {
    pub dest: String,
    pub src: Expr,
}

/// A transaction that a change takes in.
#[derive(Debug, Clone)]
pub struct Txn {
    pub id: TxnId,
    pub assns: Vec<Assn>,
}

/// A change that is passed on: the transactions that it takes in.
#[derive(Debug, Clone)]
pub struct PropChange {
    pub id: ChangeId,
    pub preds: Vec<Txn>,
}

/// The model of an [`Assn`].
pub struct AssnM {
    pub dest: Seq<char>,
    pub src: ExprM<Symbol>,
}

/// The model of a [`Txn`].
pub struct ChangeTxnM {
    pub id: TxnId,
    pub assns: Seq<AssnM>,
}

/// The model of a [`PropChange`].
pub struct PropChangeM {
    pub id: ChangeId,
    pub preds: Seq<ChangeTxnM>,
}

impl DeepView for Assn {
    type V = AssnM;

    open spec fn deep_view(&self) -> AssnM {
        AssnM { dest: self.dest@, src: self.src.deep_view() }
    }
}

impl DeepView for Txn {
    type V = ChangeTxnM;

    open spec fn deep_view(&self) -> ChangeTxnM {
        ChangeTxnM { id: self.id, assns: self.assns.deep_view() }
    }
}

impl Plain for Assn {
    fn dup(&self) -> (r: Self) {
        Assn { dest: self.dest.clone(), src: self.src.dup() }
    }

    fn same(&self, other: &Self) -> (r: bool) {
        self.dest.same(&other.dest) && self.src.same(&other.src)
    }
}

impl Plain for Txn {
    fn dup(&self) -> (r: Self) {
        Txn { id: self.id, assns: self.assns.dup() }
    }

    fn same(&self, other: &Self) -> (r: bool) {
        self.id == other.id && self.assns.same(&other.assns)
    }
}

impl DeepView for PropChange {
    type V = PropChangeM;

    open spec fn deep_view(&self) -> PropChangeM {
        PropChangeM { id: self.id, preds: self.preds.deep_view() }
    }
}

} // verus!
