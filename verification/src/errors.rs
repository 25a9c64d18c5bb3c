//! The unified error kind of the search engine.
//!
//! Each variant carries enough context for a single-line human message.
//! Errors of the surrounding runtime (I/O, the XML tokenizer, the process
//! spawner) arrive here as plain message strings.

use vstd::prelude::*;

verus! {

/// All the ways a search can fail.
#[derive(Debug)]
pub enum Error {
    /// An I/O error from the underlying stream, carried as its message.
    Io(String),
    /// Malformed UTF-8 inside a text run.
    Utf8(String),
    /// Malformed XML, or an unexpected end of input while a tag was open
    /// (the message then names the tag that was being sought).
    Xml(String),
    /// The regular expression did not compile.
    Regex(String),
    /// Only text was expected inside the named tag.
    OnlyTextExpectedInTag(String),
    /// An empty element stood where a start tag was required.
    UnexpectedEmptyTag(String),
    /// The current working directory could not be determined.
    CouldNotGetCurrentDir(String),
    /// The dump file or prefix names neither a regular file nor a usable prefix.
    DumpFileOrPrefixInvalid,
    /// A prefix search found no dump files at all.
    NoDumpFilesFound,
    /// The external decompressor could not be spawned.
    SubCommandCouldNotBeStarted(String),
    /// The external decompressor exited with the given nonzero status;
    /// the second field carries its captured standard-error text.
    SubCommandTerminatedUnsuccessfully(i32, String),
}

impl Error {
    /// A short, stable word for the kind of failure, for test assertions
    /// and log lines.
    pub fn kind_name(&self) -> (r: &'static str)
        ensures
            r@ == self.spec_kind_name(),
    {
        match self {
            Error::Io(_) => "io",
            Error::Utf8(_) => "utf8",
            Error::Xml(_) => "xml",
            Error::Regex(_) => "regex",
            Error::OnlyTextExpectedInTag(_) => "only-text-expected-in-tag",
            Error::UnexpectedEmptyTag(_) => "unexpected-empty-tag",
            Error::CouldNotGetCurrentDir(_) => "could-not-get-current-dir",
            Error::DumpFileOrPrefixInvalid => "dump-file-or-prefix-invalid",
            Error::NoDumpFilesFound => "no-dump-files-found",
            Error::SubCommandCouldNotBeStarted(_) => "subcommand-could-not-be-started",
            Error::SubCommandTerminatedUnsuccessfully(_, _) => "subcommand-terminated-unsuccessfully",
        }
    }

    /// What `kind_name` returns, as a mathematical value.
    pub open spec fn spec_kind_name(&self) -> Seq<char> {
        match self {
            Error::Io(_) => "io"@,
            Error::Utf8(_) => "utf8"@,
            Error::Xml(_) => "xml"@,
            Error::Regex(_) => "regex"@,
            Error::OnlyTextExpectedInTag(_) => "only-text-expected-in-tag"@,
            Error::UnexpectedEmptyTag(_) => "unexpected-empty-tag"@,
            Error::CouldNotGetCurrentDir(_) => "could-not-get-current-dir"@,
            Error::DumpFileOrPrefixInvalid => "dump-file-or-prefix-invalid"@,
            Error::NoDumpFilesFound => "no-dump-files-found"@,
            Error::SubCommandCouldNotBeStarted(_) => "subcommand-could-not-be-started"@,
            Error::SubCommandTerminatedUnsuccessfully(_, _) => "subcommand-terminated-unsuccessfully"@,
        }
    }
}

} // verus!
