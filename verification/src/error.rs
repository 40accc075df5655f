//! The failures that the engine reports.

use vstd::prelude::*;
use vstd::string::*;

verus! {

/// A failure, with the text that describes it.
#[derive(Debug, Clone)]
pub enum AppError {
    /// A filesystem operation failed.
    Io(String),
    /// A store operation failed.
    Database(String),
    /// JSON could not be read or written.
    Serialization(String),
    /// YAML could not be read or written.
    Yaml(String),
    /// No vault is open.
    VaultNotOpen,
    /// The path does not exist.
    FileNotFound(String),
    /// The path leaves the vault, or is of the wrong kind.
    InvalidPath(String),
    /// The path exists already.
    AlreadyExists(String),
    /// Any other failure.
    Custom(String),
}

/// What an `AppError` holds.
pub enum ErrorModel {
    Io(Seq<char>),
    Database(Seq<char>),
    Serialization(Seq<char>),
    Yaml(Seq<char>),
    VaultNotOpen,
    FileNotFound(Seq<char>),
    InvalidPath(Seq<char>),
    AlreadyExists(Seq<char>),
    Custom(Seq<char>),
}

impl View for AppError {
    type V = ErrorModel;

    open spec fn view(&self) -> ErrorModel {
        match self {
            AppError::Io(m) => ErrorModel::Io(m@),
            AppError::Database(m) => ErrorModel::Database(m@),
            AppError::Serialization(m) => ErrorModel::Serialization(m@),
            AppError::Yaml(m) => ErrorModel::Yaml(m@),
            AppError::VaultNotOpen => ErrorModel::VaultNotOpen,
            AppError::FileNotFound(m) => ErrorModel::FileNotFound(m@),
            AppError::InvalidPath(m) => ErrorModel::InvalidPath(m@),
            AppError::AlreadyExists(m) => ErrorModel::AlreadyExists(m@),
            AppError::Custom(m) => ErrorModel::Custom(m@),
        }
    }
}

/// The one line that tells the user of the failure `e`.
pub open spec fn message_of(e: ErrorModel) -> Seq<char> {
    match e {
        ErrorModel::Io(m) => "IO error: "@ + m,
        ErrorModel::Database(m) => "Database error: "@ + m,
        ErrorModel::Serialization(m) => "Serialization error: "@ + m,
        ErrorModel::Yaml(m) => "YAML error: "@ + m,
        ErrorModel::VaultNotOpen => "Vault not open"@,
        ErrorModel::FileNotFound(m) => "File not found: "@ + m,
        ErrorModel::InvalidPath(m) => "Invalid path: "@ + m,
        ErrorModel::AlreadyExists(m) => "Already exists: "@ + m,
        ErrorModel::Custom(m) => m,
    }
}

impl AppError {
    /// The one line that tells the user of the failure.
    pub fn message(&self) -> (r: String)
        ensures
            r@ == message_of(self@),
    {
        match self {
            AppError::Io(m) => String::from_str("IO error: ").concat(m.as_str()),
            AppError::Database(m) => String::from_str("Database error: ").concat(m.as_str()),
            AppError::Serialization(m) => String::from_str("Serialization error: ").concat(
                m.as_str(),
            ),
            AppError::Yaml(m) => String::from_str("YAML error: ").concat(m.as_str()),
            AppError::VaultNotOpen => String::from_str("Vault not open"),
            AppError::FileNotFound(m) => String::from_str("File not found: ").concat(m.as_str()),
            AppError::InvalidPath(m) => String::from_str("Invalid path: ").concat(m.as_str()),
            AppError::AlreadyExists(m) => String::from_str("Already exists: ").concat(m.as_str()),
            AppError::Custom(m) => m.clone(),
        }
    }
}

} // verus!
