//! The entries of an installer.
use vstd::prelude::*;

pub mod checksum;

verus! {

/// What a file entry says of where its contents belong.
#[verifier::ext_equal]
pub struct EntryModel {
    pub script: Option<Seq<char>>,
    pub destination: Option<Seq<char>>,
}

/// The scripts that decide how an entry is installed.
#[derive(Clone, Debug, Eq, PartialEq)]
pub struct Condition {
    before_install: Option<String>,
}

impl View for Condition {
    type V = Option<Seq<char>>;

    closed spec fn view(&self) -> Option<Seq<char>> {
        self.before_install.deep_view()
    }
}

impl Condition {
    /// A condition with the given script to call before installing.
    pub fn new(before_install: Option<String>) -> (result: Self)
        ensures
            result@ == before_install.deep_view(),
    {
        Condition { before_install }
    }

    /// Returns the script called before the entry is installed.
    pub fn before_install(&self) -> (result: Option<&str>)
        ensures
            result.deep_view() == self@,
    {
        match &self.before_install {
            Some(script) => Some(script.as_str()),
            None => None,
        }
    }
}

/// A file entry of an installer.
#[derive(Clone, Debug, Eq, PartialEq)]
pub struct File {
    condition: Condition,
    destination: Option<String>,
}

impl View for File {
    type V = EntryModel;

    closed spec fn view(&self) -> EntryModel {
        EntryModel { script: self.condition@, destination: self.destination.deep_view() }
    }
}

impl DeepView for File {
    type V = EntryModel;

    open spec fn deep_view(&self) -> EntryModel {
        self@
    }
}

impl File {
    /// A file entry with the given condition and destination.
    pub fn new(condition: Condition, destination: Option<String>) -> (result: Self)
        ensures
            result@ == (EntryModel {
                script: condition@,
                destination: destination.deep_view(),
            }),
    {
        File { condition, destination }
    }

    /// Returns the scripts that decide how the entry is installed.
    pub fn condition(&self) -> (result: &Condition)
        ensures
            result@ == self@.script,
    {
        &self.condition
    }

    /// Returns the path that the entry itself says it is written to.
    pub fn destination(&self) -> (result: Option<&str>)
        ensures
            result.deep_view() == self@.destination,
    {
        match &self.destination {
            Some(path) => Some(path.as_str()),
            None => None,
        }
    }
}

/// An entry to extract from an installer, with the size of its file.
#[derive(Clone, Debug, Eq, PartialEq)]
pub struct ExtractEntry {
    file: File,
    size: u64,
}

impl ExtractEntry {
    /// What the entry says of its file.
    pub closed spec fn file_model(&self) -> EntryModel {
        self.file@
    }

    /// The size of the file, in bytes.
    pub closed spec fn file_size(&self) -> u64 {
        self.size
    }

    /// An entry for a file of the given size.
    pub fn new(file: File, size: u64) -> (result: Self)
        ensures
            result.file_model() == file@,
            result.file_size() == size,
    {
        ExtractEntry { file, size }
    }

    /// Returns the file entry.
    pub fn file(&self) -> (result: &File)
        ensures
            result@ == self.file_model(),
    {
        &self.file
    }

    /// Returns the size of the file, in bytes.
    pub fn size(&self) -> (result: u64)
        ensures
            result == self.file_size(),
    {
        self.size
    }
}

} // verus!
