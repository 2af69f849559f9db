//! The error classification shared by every fallible operation.
use vstd::prelude::*;

use crate::text::{decimal, push_decimal};

verus! {

/// How an out-of-range index was used.
#[derive(Clone, Copy, Debug, PartialEq, Eq)]
pub enum Access {
    /// Reading an existing element (a header column or a row).
    Lookup,
    /// Choosing where a row is inserted, replaced or removed.
    Position,
}

/// The file operation that failed.
#[derive(Clone, Copy, Debug, PartialEq, Eq)]
pub enum IoStep {
    Open,
    Read,
    Create,
    Write,
    Flush,
}

/// Why an operation on a table failed.
#[derive(Debug, PartialEq, Eq)]
pub enum CsvError {
    /// A file operation failed; `detail` is the platform's description.
    Io { step: IoStep, detail: String },
    /// A row was given `actual` values where the header has `expected` columns.
    SizeMismatch { expected: usize, actual: usize },
    /// `index` is not below (or, for an insertion, not at most) `bound`.
    IndexOutOfRange { index: usize, bound: usize, access: Access },
    /// No column of that name exists.
    ColumnNotFound { name: String },
    /// Reading a value failed; `cause` says why.
    ValueLookup { cause: Box<CsvError> },
}

/// The name of a file operation as it appears in messages.
pub open spec fn step_name(step: IoStep) -> Seq<char> {
    match step {
        IoStep::Open => "open"@,
        IoStep::Read => "read"@,
        IoStep::Create => "create"@,
        IoStep::Write => "write"@,
        IoStep::Flush => "flush"@,
    }
}

/// The human-readable text of an error.
pub open spec fn message_of(e: CsvError) -> Seq<char>
    decreases e,
{
    match e {
        CsvError::Io { step, detail } => step_name(step) + "に失敗しました。["@ + detail@ + "]"@,
        CsvError::SizeMismatch { expected, actual } => "行のサイズが不正です。必要数=["@ + decimal(
            expected as nat,
        ) + "], 渡した数=["@ + decimal(actual as nat) + "]"@,
        CsvError::IndexOutOfRange { index, bound, access } => match access {
            Access::Lookup => "範囲外のインデックスが指定されました。["@ + decimal(index as nat)
                + "]"@,
            Access::Position => "不正なインデックスです。指定したインデックス=["@ + decimal(
                index as nat,
            ) + "], 許容範囲=["@ + decimal(bound as nat) + "]"@,
        },
        CsvError::ColumnNotFound { name } => "存在しないヘッダー名です。["@ + name@ + "]"@,
        CsvError::ValueLookup { cause } => "値の取得に失敗しました。["@ + message_of(*cause)
            + "]"@,
    }
}

fn step_text(step: IoStep) -> (r: &'static str)
    ensures
        r@ == step_name(step),
{
    match step {
        IoStep::Open => "open",
        IoStep::Read => "read",
        IoStep::Create => "create",
        IoStep::Write => "write",
        IoStep::Flush => "flush",
    }
}

impl CsvError {
    /// The human-readable text of this error, including that of its cause.
    pub fn message(&self) -> (r: String)
        ensures
            r@ == message_of(*self),
        decreases *self,
    {
        match self {
            CsvError::Io { step, detail } => {
                let mut s = String::from_str(step_text(*step));
                s.append("に失敗しました。[");
                s.append(detail.as_str());
                s.append("]");
                s
            },
            CsvError::SizeMismatch { expected, actual } => {
                let mut s = String::from_str("行のサイズが不正です。必要数=[");
                push_decimal(&mut s, *expected);
                s.append("], 渡した数=[");
                push_decimal(&mut s, *actual);
                s.append("]");
                s
            },
            CsvError::IndexOutOfRange { index, bound, access } => match access {
                Access::Lookup => {
                    let mut s = String::from_str("範囲外のインデックスが指定されました。[");
                    push_decimal(&mut s, *index);
                    s.append("]");
                    s
                },
                Access::Position => {
                    let mut s = String::from_str("不正なインデックスです。指定したインデックス=[");
                    push_decimal(&mut s, *index);
                    s.append("], 許容範囲=[");
                    push_decimal(&mut s, *bound);
                    s.append("]");
                    s
                },
            },
            CsvError::ColumnNotFound { name } => {
                let mut s = String::from_str("存在しないヘッダー名です。[");
                s.append(name.as_str());
                s.append("]");
                s
            },
            CsvError::ValueLookup { cause } => {
                let inner = cause.message();
                let mut s = String::from_str("値の取得に失敗しました。[");
                s.append(inner.as_str());
                s.append("]");
                s
            },
        }
    }
}

} // verus!
