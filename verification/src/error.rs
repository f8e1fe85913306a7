//! The ways a conversion can fail.

use vstd::prelude::*;

verus! {

/// Why a conversion stopped.  Every failure ends the whole run.
#[derive(Debug, PartialEq, Eq)]
pub enum Error {
    /// The column declaration at `index` has no name, no known type, or
    /// repeats the name of an earlier declaration.
    InvalidSchema { index: usize },
    /// Data row `row` (counted from zero after the header) is not well
    /// quoted or has another number of fields than the header.
    MalformedRow { row: usize },
    /// In data row `row`, the field of column `column` holds `token`,
    /// which is no value of the column's type.
    TypeCoercionError { row: usize, column: Vec<u8>, token: Vec<u8> },
    /// No column of the table is called `name`.
    UnknownColumn { name: Vec<u8> },
    /// The sort key `name` has a type without an order.
    UnorderableType { name: Vec<u8> },
}

/// The mathematical value of an `Error`.
pub enum ErrorView {
    InvalidSchema { index: nat },
    MalformedRow { row: nat },
    TypeCoercionError { row: nat, column: Seq<u8>, token: Seq<u8> },
    UnknownColumn { name: Seq<u8> },
    UnorderableType { name: Seq<u8> },
}

impl View for Error {
    type V = ErrorView;

    open spec fn view(&self) -> ErrorView {
        match *self {
            Error::InvalidSchema { index } => ErrorView::InvalidSchema { index: index as nat },
            Error::MalformedRow { row } => ErrorView::MalformedRow { row: row as nat },
            Error::TypeCoercionError { row, column, token } => ErrorView::TypeCoercionError {
                row: row as nat,
                column: column@,
                token: token@,
            },
            Error::UnknownColumn { name } => ErrorView::UnknownColumn { name: name@ },
            Error::UnorderableType { name } => ErrorView::UnorderableType { name: name@ },
        }
    }
}

} // verus!
