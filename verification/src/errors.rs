//! The error taxonomy of the store: internal failures, file-storage
//! failures and relational-storage failures, each carrying a readable
//! message and the name of the underlying failure for diagnostics.
use vstd::prelude::*;

verus! {

#[derive(Debug)]
pub enum DocDbError {
    InternalError { message: String, inner_type_name: String },
    FileStorageError { message: String, inner_type_name: String },
    SqlStorageError { message: String, inner_type_name: String },
}

/// The rendered form of an error, as a character sequence.
pub open spec fn error_text(e: &DocDbError) -> Seq<char> {
    match e {
        DocDbError::InternalError { message, inner_type_name } => "InternalError: ["@
            + inner_type_name@ + "]: "@ + message@,
        DocDbError::FileStorageError { message, inner_type_name } => "FileStorageError: ["@
            + inner_type_name@ + "]: "@ + message@,
        DocDbError::SqlStorageError { message, inner_type_name } => "SqlStorageError: ["@
            + inner_type_name@ + "]: "@ + message@,
    }
}

impl DocDbError {
    /// The readable rendering of the error.
    pub fn to_display_string(&self) -> (r: String)
        ensures
            r@ == error_text(self),
    {
        let mut out = String::new();
        match self {
            DocDbError::InternalError { message, inner_type_name } => {
                out.append("InternalError: [");
                out.append(inner_type_name.as_str());
                out.append("]: ");
                out.append(message.as_str());
            },
            DocDbError::FileStorageError { message, inner_type_name } => {
                out.append("FileStorageError: [");
                out.append(inner_type_name.as_str());
                out.append("]: ");
                out.append(message.as_str());
            },
            DocDbError::SqlStorageError { message, inner_type_name } => {
                out.append("SqlStorageError: [");
                out.append(inner_type_name.as_str());
                out.append("]: ");
                out.append(message.as_str());
            },
        }
        proof {
            assert(out@ =~= error_text(self));
        }
        out
    }

    /// An internal failure with the given message.
    pub fn internal(message: &str, inner: &str) -> (r: DocDbError)
        ensures
            r is InternalError,
            error_text(&r) == "InternalError: ["@ + inner@ + "]: "@ + message@,
    {
        DocDbError::InternalError { message: message.to_owned(), inner_type_name: inner.to_owned() }
    }

    /// A file-storage failure with the given message.
    pub fn file_storage(message: &str, inner: &str) -> (r: DocDbError)
        ensures
            r is FileStorageError,
            error_text(&r) == "FileStorageError: ["@ + inner@ + "]: "@ + message@,
    {
        DocDbError::FileStorageError {
            message: message.to_owned(),
            inner_type_name: inner.to_owned(),
        }
    }

    /// A relational-storage failure with the given message.
    pub fn sql_storage(message: &str, inner: &str) -> (r: DocDbError)
        ensures
            r is SqlStorageError,
            error_text(&r) == "SqlStorageError: ["@ + inner@ + "]: "@ + message@,
    {
        DocDbError::SqlStorageError {
            message: message.to_owned(),
            inner_type_name: inner.to_owned(),
        }
    }
}

pub type DocDbResult<T> = Result<T, DocDbError>;

} // verus!
