//! Files of a store: what a handler of one file type offers.

use vstd::prelude::*;
use vstd::string::StringExecFns;

verus! {

/// Why a file was refused.
#[derive(Debug, Clone, Copy, PartialEq, Eq, Structural)]
pub enum Error {
    /// The file is not valid.
    InvalidFileContents,
    /// The file does not contain a UID.
    NoUID,
}

/// The one line that tells of a change to an item described as
/// `description`: that it was added, or that it was modified.
pub open spec fn change_line(description: Seq<char>, added: bool) -> Seq<char> {
    if added {
        seq!['A', 'd', 'd', 'e', 'd', ' '] + description
    } else {
        seq!['M', 'o', 'd', 'i', 'f', 'i', 'e', 'd', ' '] + description
    }
}

/// Tells of a change to an item described as `description`: of its addition
/// where `added` is set, else of its modification.
pub fn describe_change(description: &str, added: bool) -> (lines: Vec<String>)
    ensures
        lines@.len() == 1,
        lines@[0]@ == change_line(description@, added),
{
    proof {
        reveal_strlit("Added ");
        reveal_strlit("Modified ");
        assert("Added "@ =~= seq!['A', 'd', 'd', 'e', 'd', ' ']);
        assert("Modified "@ =~= seq!['M', 'o', 'd', 'i', 'f', 'i', 'e', 'd', ' ']);
    }
    let prefix = if added {
        "Added "
    } else {
        "Modified "
    };
    let mut lines: Vec<String> = Vec::new();
    lines.push(String::from_str(prefix).concat(description));
    lines
}

/// A file type handler.
pub trait File {
    fn content_type(&self) -> &str;

    fn content(&self) -> &[Vec<u8>];

    /// Verify that file contents are valid.
    fn validate(&self) -> Result<(), Error>;

    /// Return a normalized version of the file.
    fn normalized(&self) -> Vec<Vec<u8>>;

    /// Describe the contents of this file.
    ///
    /// Used in e.g. commit messages.
    fn describe(&self, name: &str) -> String;

    /// Return the UID: `NoUID` where none is set on this file,
    /// `InvalidFileContents` where the file is misformatted.
    fn get_uid(&self) -> Result<String, Error>;

    /// Describe the important difference between this file and the previous
    /// one, if there was one: one line, which tells of the change to what
    /// `describe` gives for `name`.
    fn describe_delta(&self, name: &str, previous: Option<&Self>) -> (lines: Vec<String>) where
        Self: Sized,

        ensures
            lines@.len() == 1,
            exists|description: Seq<char>|
                lines@[0]@ == #[trigger] change_line(description, previous is None),
    {
        let item_description = self.describe(name);
        describe_change(item_description.as_str(), previous.is_none())
    }
}

} // verus!
