//! The settings that say where the catalogue is kept.

use vstd::prelude::*;

verus! {

/// The file that holds the catalogue when no name is given.
pub const MAIN_DATABASE_FILE_NAME: &'static str = "main.db";

/// Why a connection could not be described.
#[derive(Clone, Copy, Debug, PartialEq, Eq)]
pub enum Error {
    /// The directory is the empty text.
    InvalidPath,
    /// The directory is not a directory on disk.
    NotADirectory,
    /// The file name is the empty text.
    InvalidName,
}

/// Where the catalogue is kept.
pub enum DatabaseLocation<'a> {
    /// A file on disk: the directory that holds it, and the name of the file. Without
    /// a name the file is `main.db`.
    Path(&'a str, Option<&'a str>),
    /// An address.
    URL(&'a str),
}

/// A checked location of the catalogue, from which sessions are opened.
#[derive(Clone, Debug)]
pub struct DatabaseConnection {
    database_location: String,
}

/// `Path::join`: the path of the file `file` in the directory `dir`. The separator that
/// is put between them is the platform's, so nothing is stated of the text.
#[verifier::external_body]
fn join(dir: &str, file: &str) -> (path: String) {
    std::path::Path::new(dir).join(file).to_string_lossy().into_owned()
}

impl DatabaseConnection {
    /// The location, as text.
    pub closed spec fn location(&self) -> Seq<char> {
        self.database_location@
    }

    /// Checks a location. `is_directory` says whether the directory of a
    /// [`DatabaseLocation::Path`] is a directory on disk; for an address it is not read.
    ///
    /// An address is taken as it is. Of a path, the directory is checked first, then
    /// that it is on disk, then the name.
    pub fn new(location: DatabaseLocation, is_directory: bool) -> (r: Result<Self, Error>)
        ensures
            match location {
                DatabaseLocation::Path(dir, name) => {
                    if dir@.len() == 0 {
                        r == Err::<Self, Error>(Error::InvalidPath)
                    } else if !is_directory {
                        r == Err::<Self, Error>(Error::NotADirectory)
                    } else if name is Some && name->0@.len() == 0 {
                        r == Err::<Self, Error>(Error::InvalidName)
                    } else {
                        r is Ok
                    }
                },
                DatabaseLocation::URL(url) => r is Ok && r->Ok_0.location() == url@,
            },
    {
        let database_location = match location {
            DatabaseLocation::Path(dir, name) => {
                if dir.is_empty() {
                    return Err(Error::InvalidPath);
                }
                if !is_directory {
                    return Err(Error::NotADirectory);
                }
                let database_name = match name {
                    None => MAIN_DATABASE_FILE_NAME,
                    Some(val) => {
                        if val.is_empty() {
                            return Err(Error::InvalidName);
                        }
                        val
                    },
                };
                join(dir, database_name)
            },
            DatabaseLocation::URL(url) => url.to_owned(),
        };
        Ok(DatabaseConnection { database_location })
    }

    /// The location, as text.
    pub fn database_location(&self) -> (text: &str)
        ensures
            text@ == self.location(),
    {
        self.database_location.as_str()
    }
}

} // verus!
