//! The errors the engine reports.

use crate::text::{push_decimal, spec_decimal};
use vstd::prelude::*;
use vstd::string::StringExecFns;

verus! {

/// What can go wrong while building a manifest, planning or executing a sync.
#[derive(Debug)]
pub enum Error {
    /// A file named by a file list or a plan does not exist.
    FileNotFound(String),
    /// A directory that should hold a file does not exist.
    DirectoryNotFound(String),
    /// A chunk id is unknown to the provider or the index asked for it.
    ChunkNotFound(u64),
    /// The destination refused a read, a write or a seek.
    AccessDenied,
    /// Any other failure, with a message.
    Unspecified(String),
    /// A failed read or write, with the message of the underlying error.
    IOError(String),
}

impl Error {
    /// The error in words.
    pub open spec fn spec_message(self) -> Seq<char> {
        match self {
            Error::FileNotFound(path) => "File not found "@ + path@,
            Error::DirectoryNotFound(path) => "Directory not found "@ + path@,
            Error::ChunkNotFound(id) => "Chunk not found "@ + spec_decimal(id as nat),
            Error::AccessDenied => "Access is denied"@,
            Error::Unspecified(message) => "Unspecified: "@ + message@,
            Error::IOError(message) => message@,
        }
    }

    /// Says the error in words, for a reader.
    pub fn message(&self) -> (text: String)
        ensures
            text@ == self.spec_message(),
    {
        match self {
            Error::FileNotFound(path) => {
                let mut text = String::from_str("File not found ");
                text.append(path.as_str());
                text
            },
            Error::DirectoryNotFound(path) => {
                let mut text = String::from_str("Directory not found ");
                text.append(path.as_str());
                text
            },
            Error::ChunkNotFound(id) => {
                let mut text = String::from_str("Chunk not found ");
                push_decimal(&mut text, *id);
                text
            },
            Error::AccessDenied => String::from_str("Access is denied"),
            Error::Unspecified(message) => {
                let mut text = String::from_str("Unspecified: ");
                text.append(message.as_str());
                text
            },
            Error::IOError(message) => message.clone(),
        }
    }
}

} // verus!
