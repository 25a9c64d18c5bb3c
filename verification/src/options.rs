//! Search configuration and the search result aggregate.

use vstd::prelude::*;

verus! {

/// Whether match output carries terminal colors: always, only when stdout is
/// a terminal, or never.
#[derive(Clone, Copy, PartialEq, Eq, Structural, Debug)]
pub enum ColorChoice {
    Always,
    Auto,
    Never,
}

/// What a finished search reports: the sum of uncompressed bytes examined and
/// whether any of the searched files was compressed.
pub struct SearchDumpResult {
    pub bytes_processed: u64,
    pub compressed_files_found: bool,
}

/// The engine's knobs.  Built with [`SearchOptions::new`] and adjusted with
/// the builder methods; the fields are read by the driver and the extractor.
pub struct SearchOptions {
    /// When present, only pages whose `<ns>` value equals one of these ASCII
    /// decimal strings are searched; when absent, no filter applies.
    pub restrict_namespaces: Option<Vec<Vec<u8>>>,
    /// When set, suppress line-level output and emit one `title@revid` line
    /// per matching revision.
    pub only_print_title: bool,
    /// The worker-pool size; absent means the number of logical CPUs.
    pub thread_count: Option<usize>,
    /// The command that decompresses `.7z` files to stdout.
    pub binary_7z: String,
    pub options_7z: Vec<String>,
    /// The command that decompresses `.bz2` files to stdout.
    pub binary_bzcat: String,
    pub options_bzcat: Vec<String>,
    pub color_choice: ColorChoice,
}

impl SearchOptions {
    /// The defaults: no namespace filter, full line output, CPU-count
    /// threads, `7z e -so`, `bzcat` with no options, colors off.
    pub fn new() -> (r: SearchOptions)
        ensures
            r.restrict_namespaces is None,
            !r.only_print_title,
            r.thread_count is None,
            r.binary_7z@ == "7z"@,
            r.options_7z@.len() == 2,
            r.options_7z@[0]@ == "e"@,
            r.options_7z@[1]@ == "-so"@,
            r.binary_bzcat@ == "bzcat"@,
            r.options_bzcat@.len() == 0,
            r.color_choice == ColorChoice::Never,
    {
        let mut options_7z: Vec<String> = Vec::new();
        options_7z.push(String::from_str("e"));
        options_7z.push(String::from_str("-so"));
        SearchOptions {
            restrict_namespaces: None,
            only_print_title: false,
            thread_count: None,
            binary_7z: String::from_str("7z"),
            options_7z,
            binary_bzcat: String::from_str("bzcat"),
            options_bzcat: Vec::new(),
            color_choice: ColorChoice::Never,
        }
    }

    /// Restricts the search to pages in the given namespaces.
    pub fn restrict_namespaces(&mut self, restrict_namespaces: Vec<Vec<u8>>)
        ensures
            *final(self) == (SearchOptions {
                restrict_namespaces: Some(restrict_namespaces),
                ..*old(self)
            }),
    {
        self.restrict_namespaces = Some(restrict_namespaces);
    }

    /// Chooses between line-level output and one `title@revid` line per
    /// matching revision.
    pub fn only_print_title(&mut self, only_print_title: bool)
        ensures
            *final(self) == (SearchOptions { only_print_title, ..*old(self) }),
    {
        self.only_print_title = only_print_title;
    }

    /// Sets the worker-pool size.
    pub fn with_thread_count(&mut self, thread_count: usize)
        requires
            thread_count >= 1,
        ensures
            *final(self) == (SearchOptions { thread_count: Some(thread_count), ..*old(self) }),
    {
        self.thread_count = Some(thread_count);
    }

    /// Names the `.7z` decompressor binary.
    pub fn with_binary_7z(&mut self, binary_7z: String)
        ensures
            *final(self) == (SearchOptions { binary_7z, ..*old(self) }),
    {
        self.binary_7z = binary_7z;
    }

    /// Sets the options handed to the `.7z` decompressor.
    pub fn with_options_7z(&mut self, options_7z: Vec<String>)
        ensures
            *final(self) == (SearchOptions { options_7z, ..*old(self) }),
    {
        self.options_7z = options_7z;
    }

    /// Names the `.bz2` decompressor binary.
    pub fn with_binary_bzcat(&mut self, binary_bzcat: String)
        ensures
            *final(self) == (SearchOptions { binary_bzcat, ..*old(self) }),
    {
        self.binary_bzcat = binary_bzcat;
    }

    /// Sets the options handed to the `.bz2` decompressor.
    pub fn with_options_bzcat(&mut self, options_bzcat: Vec<String>)
        ensures
            *final(self) == (SearchOptions { options_bzcat, ..*old(self) }),
    {
        self.options_bzcat = options_bzcat;
    }

    /// Sets the color mode of the match output.
    pub fn with_color_choice(&mut self, color_choice: ColorChoice)
        ensures
            *final(self) == (SearchOptions { color_choice, ..*old(self) }),
    {
        self.color_choice = color_choice;
    }
}

impl Default for SearchOptions {
    fn default() -> (r: SearchOptions)
        ensures
            r.restrict_namespaces is None,
            !r.only_print_title,
            r.thread_count is None,
            r.binary_7z@ == "7z"@,
            r.options_7z@.len() == 2,
            r.options_7z@[0]@ == "e"@,
            r.options_7z@[1]@ == "-so"@,
            r.binary_bzcat@ == "bzcat"@,
            r.options_bzcat@.len() == 0,
            r.color_choice == ColorChoice::Never,
    {
        SearchOptions::new()
    }
}

/// The byte sequence `s` ends with `suffix`.
pub open spec fn ends_with(s: Seq<u8>, suffix: Seq<u8>) -> bool {
    s.len() >= suffix.len() && s.skip(s.len() - suffix.len()) == suffix
}

/// The file name of a compressed dump: it ends in `.7z` or `.bz2`.
pub open spec fn spec_is_compressed(name: Seq<u8>) -> bool {
    ends_with(name, seq![46u8, 55u8, 122u8]) || ends_with(name, seq![46u8, 98u8, 122u8, 50u8])
}

/// Decides whether a dump file is compressed, by its name's suffix.
pub fn is_compressed(file: &Vec<u8>) -> (r: bool)
    ensures
        r == spec_is_compressed(file@),
{
    let n = file.len();
    let seven_z = n >= 3 && file[n - 3] == 46 && file[n - 2] == 55 && file[n - 1] == 122;
    let bz2 = n >= 4 && file[n - 4] == 46 && file[n - 3] == 98 && file[n - 2] == 122
        && file[n - 1] == 50;
    proof {
        if seven_z {
            assert(file@.skip(n - 3) =~= seq![46u8, 55u8, 122u8]);
        }
        if bz2 {
            assert(file@.skip(n - 4) =~= seq![46u8, 98u8, 122u8, 50u8]);
        }
        if !seven_z && ends_with(file@, seq![46u8, 55u8, 122u8]) {
            assert(file@.skip(n - 3)[0] == file@[n - 3]);
            assert(file@.skip(n - 3)[1] == file@[n - 2]);
            assert(file@.skip(n - 3)[2] == file@[n - 1]);
        }
        if !bz2 && ends_with(file@, seq![46u8, 98u8, 122u8, 50u8]) {
            assert(file@.skip(n - 4)[0] == file@[n - 4]);
            assert(file@.skip(n - 4)[1] == file@[n - 3]);
            assert(file@.skip(n - 4)[2] == file@[n - 2]);
            assert(file@.skip(n - 4)[3] == file@[n - 1]);
        }
    }
    seven_z || bz2
}

} // verus!
