//! Structured error type returned to the webview. Operations never panic on
//! user input; they return `AppResult<T>` and the frontend renders the message.
use vstd::prelude::*;

verus! {

#[derive(Debug, Clone, PartialEq, Eq)]
pub enum AppError {
    /// A filesystem error, with its message.
    Io(String),
    /// No vault is currently open.
    NoVault,
    /// A path is outside the active vault.
    OutsideVault,
    /// An invalid path, with the reason.
    InvalidPath(String),
    /// A task write-back whose target line no longer matches what was indexed.
    TaskMismatch(String),
}

pub type AppResult<T> = Result<T, AppError>;

/// The text the webview shows for an error.
pub open spec fn message_spec(e: AppError) -> Seq<char> {
    match e {
        AppError::Io(m) => "filesystem error: "@ + m@,
        AppError::NoVault => "no vault is currently open"@,
        AppError::OutsideVault => "path is outside the active vault"@,
        AppError::InvalidPath(m) => "invalid path: "@ + m@,
        AppError::TaskMismatch(m) => m@,
    }
}

impl AppError {
    /// The human-readable message for this error.
    pub fn message(&self) -> (r: String)
        ensures
            r@ == message_spec(*self),
    {
        match self {
            AppError::Io(m) => {
                let mut s = String::from_str("filesystem error: ");
                crate::text::push_str(&mut s, m.as_str());
                s
            },
            AppError::NoVault => String::from_str("no vault is currently open"),
            AppError::OutsideVault => String::from_str("path is outside the active vault"),
            AppError::InvalidPath(m) => {
                let mut s = String::from_str("invalid path: ");
                crate::text::push_str(&mut s, m.as_str());
                s
            },
            AppError::TaskMismatch(m) => crate::text::copy_string(m),
        }
    }
}

} // verus!
