//! Dump inventory types and file-name helpers of the companion download
//! tool.
//!
//! The download tool proper — mirror selection, HTTP, hash verification —
//! lives outside the library; these are the plain data it hands around and
//! the name arithmetic it relies on.  Paths are carried as byte strings with
//! `/` as the separator.

use vstd::prelude::*;

use crate::options::ends_with;

verus! {

/// One wiki of the dump inventory: its site id and human-readable name.
pub struct Wiki {
    pub id: String,
    pub name: String,
}

/// The status report of one dump run: its version and its jobs by name.
pub struct DumpStatus {
    pub version: String,
    pub jobs: Vec<(String, DumpJobInfo)>,
}

/// One job of a dump run: when it was updated, its status word, and its
/// files by name, when listed.
pub struct DumpJobInfo {
    pub updated: String,
    pub status: String,
    pub files: Option<Vec<(String, DumpFileInfo)>>,
}

/// What the inventory says about one dump file.
pub struct DumpFileInfo {
    pub url: Option<String>,
    pub sha1: Option<String>,
    pub size: Option<u64>,
    pub md5: Option<String>,
}

/// The knobs of a dump download.
pub struct DownloadOptions {
    pub mirror: Option<String>,
    pub verbose: bool,
    pub decompress: bool,
    pub concurrency: Option<usize>,
}

/// Progress reports a download emits; paths travel as byte strings and
/// runtime errors as their messages.
pub enum DownloadProgress {
    TotalDownloadSize(u64),
    BytesReadFromNet(u64),
    DecompressedBytesWrittenToDisk(u64),
    ExistingFileIgnored(Vec<u8>, String),
    CouldNotRemoveTempFile(Vec<u8>, String, String),
    FileFinished(Vec<u8>, String),
}

/// The suffix `.bz2`.
pub open spec fn bz2_suffix() -> Seq<u8> {
    seq![46u8, 98u8, 122u8, 50u8]
}

/// The suffix `.part` of a partially downloaded file.
pub open spec fn part_suffix() -> Seq<u8> {
    seq![46u8, 112u8, 97u8, 114u8, 116u8]
}

/// The name a downloaded file is stored under: when decompressing, one
/// trailing `.bz2` is stripped; otherwise the name as given.
pub open spec fn spec_target_file_name(name: Seq<u8>, decompress: bool) -> Seq<u8> {
    if decompress && ends_with(name, bz2_suffix()) {
        name.take(name.len() - 4)
    } else {
        name
    }
}

/// The name a downloaded file is stored under.
pub fn get_target_file_name(file_name: &Vec<u8>, decompress: bool) -> (r: Vec<u8>)
    ensures
        r@ == spec_target_file_name(file_name@, decompress),
{
    let n = file_name.len();
    let bz2 = n >= 4 && file_name[n - 4] == 46 && file_name[n - 3] == 98
        && file_name[n - 2] == 122 && file_name[n - 1] == 50;
    proof {
        if bz2 {
            assert(file_name@.skip(n - 4) =~= bz2_suffix());
        }
        if !bz2 && ends_with(file_name@, bz2_suffix()) {
            assert(file_name@.skip(n - 4)[0] == file_name@[n - 4]);
            assert(file_name@.skip(n - 4)[1] == file_name@[n - 3]);
            assert(file_name@.skip(n - 4)[2] == file_name@[n - 2]);
            assert(file_name@.skip(n - 4)[3] == file_name@[n - 1]);
        }
    }
    if decompress && bz2 {
        let mut r: Vec<u8> = Vec::new();
        let mut i: usize = 0;
        while i < n - 4
            invariant
                n == file_name@.len(),
                n >= 4,
                0 <= i <= n - 4,
                r@ =~= file_name@.take(i as int),
            decreases n - 4 - i,
        {
            r.push(file_name[i]);
            proof {
                assert(r@ =~= file_name@.take(i + 1));
            }
            i = i + 1;
        }
        r
    } else {
        let mut r: Vec<u8> = Vec::new();
        let mut i: usize = 0;
        while i < n
            invariant
                n == file_name@.len(),
                0 <= i <= n,
                r@ =~= file_name@.take(i as int),
            decreases n - i,
        {
            r.push(file_name[i]);
            proof {
                assert(r@ =~= file_name@.take(i + 1));
            }
            i = i + 1;
        }
        proof {
            assert(file_name@.take(n as int) =~= file_name@);
        }
        r
    }
}

/// A file name joined onto a directory: a `/` stands between them unless the
/// directory is empty or already ends with one.
pub open spec fn spec_file_in_dir(dir: Seq<u8>, name: Seq<u8>) -> Seq<u8> {
    if dir.len() == 0 || dir.last() == 47 {
        dir + name
    } else {
        dir + seq![47u8] + name
    }
}

/// Joins a file name onto a directory.
pub fn get_file_in_dir(directory: &Vec<u8>, file_name: &Vec<u8>) -> (r: Vec<u8>)
    ensures
        r@ == spec_file_in_dir(directory@, file_name@),
{
    let mut r: Vec<u8> = Vec::new();
    let dn = directory.len();
    let mut i: usize = 0;
    while i < dn
        invariant
            dn == directory@.len(),
            0 <= i <= dn,
            r@ =~= directory@.take(i as int),
        decreases dn - i,
    {
        r.push(directory[i]);
        proof {
            assert(r@ =~= directory@.take(i + 1));
        }
        i = i + 1;
    }
    proof {
        assert(directory@.take(dn as int) =~= directory@);
    }
    if dn > 0 && directory[dn - 1] != 47 {
        r.push(47);
    }
    let ghost joined = r@;
    let fnn = file_name.len();
    let mut j: usize = 0;
    while j < fnn
        invariant
            fnn == file_name@.len(),
            0 <= j <= fnn,
            r@ =~= joined + file_name@.take(j as int),
        decreases fnn - j,
    {
        r.push(file_name[j]);
        proof {
            assert(r@ =~= joined + file_name@.take(j + 1));
        }
        j = j + 1;
    }
    proof {
        assert(file_name@.take(fnn as int) =~= file_name@);
        if directory@.len() == 0 || directory@.last() == 47 {
            assert(r@ =~= directory@ + file_name@);
        } else {
            assert(r@ =~= directory@ + seq![47u8] + file_name@);
        }
    }
    r
}

/// The decimal digits of `n`, most significant first.
pub open spec fn spec_digits(n: int) -> Seq<u8>
    decreases n,
{
    if n < 10 {
        seq![(48 + if n >= 0 { n } else { 0 }) as u8]
    } else {
        spec_digits(n / 10) + seq![(48 + n % 10) as u8]
    }
}

/// Writes `n` in decimal.
pub fn u64_to_decimal(n: u64) -> (r: Vec<u8>)
    ensures
        r@ == spec_digits(n as int),
    decreases n,
{
    if n < 10 {
        let mut r: Vec<u8> = Vec::new();
        r.push(48 + n as u8);
        proof {
            assert(r@ =~= spec_digits(n as int));
        }
        r
    } else {
        let mut r = u64_to_decimal(n / 10);
        r.push(48 + (n % 10) as u8);
        proof {
            assert(r@ =~= spec_digits(n as int));
        }
        r
    }
}

proof fn lemma_digits_ascii(n: int)
    ensures
        forall|i: int| 0 <= i < spec_digits(n).len() ==> 48 <= #[trigger] spec_digits(n)[i] <= 57,
    decreases n,
{
    if n < 10 {
        assert(spec_digits(n).len() == 1);
        assert(spec_digits(n)[0] == (48 + if n >= 0 { n } else { 0 }) as u8);
    } else {
        lemma_digits_ascii(n / 10);
        let front = spec_digits(n / 10);
        assert forall|i: int| 0 <= i < spec_digits(n).len() implies
            48 <= #[trigger] spec_digits(n)[i] <= 57 by {
            if i < front.len() {
                assert(spec_digits(n)[i] == front[i]);
            } else {
                assert(spec_digits(n)[i] == (48 + n % 10) as u8);
            }
        }
    }
}

/// Relies on String::from_utf8: bytes below 128 are valid UTF-8 and decode
/// one code point per byte, each equal to the byte.
#[verifier::external_body]
fn ascii_string(bytes: Vec<u8>) -> (r: String)
    requires
        forall|i: int| 0 <= i < bytes@.len() ==> bytes@[i] < 128,
    ensures
        r@.len() == bytes@.len(),
        forall|i: int| 0 <= i < bytes@.len() ==> #[trigger] r@[i] == bytes@[i] as char,
{
    String::from_utf8(bytes).unwrap_or_default()
}

/// The scale a size is shown in: how often it is divided by 1024 so that it
/// falls under 1000 units, capped at the largest suffix known.
pub open spec fn spec_size_scale(len: int) -> int {
    if len / 1024 < 1000 {
        1
    } else if len / 1048576 < 1000 {
        2
    } else if len / 1073741824 < 1000 {
        3
    } else if len / 1099511627776 < 1000 {
        4
    } else {
        5
    }
}

/// The unit suffix of a scale, with its leading space.
pub open spec fn spec_unit_suffix(k: int) -> Seq<u8> {
    if k == 1 {
        seq![32u8, 75u8, 105u8, 66u8]
    } else if k == 2 {
        seq![32u8, 77u8, 105u8, 66u8]
    } else if k == 3 {
        seq![32u8, 71u8, 105u8, 66u8]
    } else if k == 4 {
        seq![32u8, 84u8, 105u8, 66u8]
    } else {
        seq![32u8, 80u8, 105u8, 66u8]
    }
}

/// 1024 to the `k`-th power, for the scales in use.
pub open spec fn spec_pow1024(k: int) -> int {
    if k == 1 {
        1024
    } else if k == 2 {
        1048576
    } else if k == 3 {
        1073741824
    } else if k == 4 {
        1099511627776
    } else {
        1125899906842624
    }
}

/// A size under its scale, in hundredths of a unit, rounded half up.
pub open spec fn spec_scaled_hundredths(len: int, d: int) -> (int, int) {
    let q = len / d;
    let f = ((len % d) * 200 + d) / (2 * d);
    if f == 100 {
        (q + 1, 0)
    } else {
        (q, f)
    }
}

/// A byte length as people read it: plain bytes under 1000, otherwise
/// scaled by 1024 until under 1000 units and shown with two decimals and
/// the unit suffix.
pub open spec fn spec_human_size(len: int) -> Seq<u8> {
    if len < 1000 {
        spec_digits(len) + seq![32u8, 98u8, 121u8, 116u8, 101u8, 115u8]
    } else {
        let k = spec_size_scale(len);
        let d = spec_pow1024(k);
        let q = spec_scaled_hundredths(len, d).0;
        let f = spec_scaled_hundredths(len, d).1;
        spec_digits(q) + seq![46u8, (48 + f / 10) as u8, (48 + f % 10) as u8]
            + spec_unit_suffix(k)
    }
}

/// Shows a byte length as people read it, e.g. `512 bytes` or `1.50 MiB`.
pub fn get_human_size(byte_len: u64) -> (r: String)
    ensures
        r@.len() == spec_human_size(byte_len as int).len(),
        forall|i: int| 0 <= i < r@.len() ==> #[trigger] r@[i] == spec_human_size(
            byte_len as int,
        )[i] as char,
{
    let mut bytes: Vec<u8>;
    if byte_len < 1000 {
        bytes = u64_to_decimal(byte_len);
        bytes.push(32);
        bytes.push(98);
        bytes.push(121);
        bytes.push(116);
        bytes.push(101);
        bytes.push(115);
        proof {
            assert(bytes@ =~= spec_human_size(byte_len as int));
        }
    } else {
        let d: u64 = if byte_len / 1024 < 1000 {
            1024
        } else if byte_len / 1048576 < 1000 {
            1048576
        } else if byte_len / 1073741824 < 1000 {
            1073741824
        } else if byte_len / 1099511627776 < 1000 {
            1099511627776
        } else {
            1125899906842624
        };
        proof {
            assert(d == spec_pow1024(spec_size_scale(byte_len as int)));
        }
        let q = byte_len / d;
        let rem = byte_len % d;
        let f = (rem * 200 + d) / (2 * d);
        let whole: u64;
        let frac: u64;
        proof {
            assert(q < 0xffff_ffff_ffff_ffff) by (nonlinear_arith)
                requires
                    q == byte_len as int / (d as int),
                    d as int >= 1024,
                    0 <= byte_len as int <= 0xffff_ffff_ffff_ffff,
            ;
        }
        if f == 100 {
            whole = q + 1;
            frac = 0;
        } else {
            whole = q;
            frac = f;
        }
        proof {
            assert(whole as int == spec_scaled_hundredths(byte_len as int, d as int).0);
            assert(frac as int == spec_scaled_hundredths(byte_len as int, d as int).1);
            assert(frac < 100) by {
                assert(((byte_len as int % (d as int)) * 200 + d as int) / (2 * (d as int))
                    <= 100) by (nonlinear_arith)
                    requires
                        d as int >= 1024,
                        0 <= byte_len as int % (d as int) < d as int,
                ;
            }
        }
        bytes = u64_to_decimal(whole);
        bytes.push(46);
        bytes.push(48 + (frac / 10) as u8);
        bytes.push(48 + (frac % 10) as u8);
        let k_is_1 = d == 1024;
        let k_is_2 = d == 1048576;
        let k_is_3 = d == 1073741824;
        let k_is_4 = d == 1099511627776;
        bytes.push(32);
        if k_is_1 {
            bytes.push(75);
        } else if k_is_2 {
            bytes.push(77);
        } else if k_is_3 {
            bytes.push(71);
        } else if k_is_4 {
            bytes.push(84);
        } else {
            bytes.push(80);
        }
        bytes.push(105);
        bytes.push(66);
        proof {
            assert(bytes@ =~= spec_human_size(byte_len as int));
        }
    }
    proof {
        lemma_digits_ascii(byte_len as int);
        if byte_len >= 1000 {
            let d = spec_pow1024(spec_size_scale(byte_len as int));
            lemma_digits_ascii(spec_scaled_hundredths(byte_len as int, d).0);
        }
        assert(forall|i: int| 0 <= i < bytes@.len() ==> bytes@[i] < 128);
    }
    ascii_string(bytes)
}

/// The path with its trailing directory markers removed: trailing `/`
/// separators and trailing `/.` components are stripped, as path
/// normalization treats them — `a/b/` and `a/b/.` both name the file `b`.
pub open spec fn spec_trim_dir_tail(s: Seq<u8>) -> Seq<u8>
    decreases s.len(),
{
    if s.len() > 0 && s.last() == 47 {
        spec_trim_dir_tail(s.drop_last())
    } else if s.len() >= 2 && s.last() == 46 && s[s.len() - 2] == 47 {
        spec_trim_dir_tail(s.take(s.len() - 2))
    } else {
        s
    }
}

/// The position after the last `/` of `s`, or zero when there is none.
pub open spec fn spec_after_last_slash(s: Seq<u8>) -> int
    decreases s.len(),
{
    if s.len() == 0 {
        0
    } else if s.last() == 47 {
        s.len() as int
    } else {
        spec_after_last_slash(s.drop_last())
    }
}

/// The final component of a path: what follows the last `/` once the
/// trailing directory markers are stripped.
pub open spec fn spec_file_name(s: Seq<u8>) -> Seq<u8> {
    spec_trim_dir_tail(s).skip(spec_after_last_slash(spec_trim_dir_tail(s)))
}

/// The path names a file: once trailing directory markers are stripped, a
/// final component is there and is a real name, not `.` or `..`.
pub open spec fn spec_has_file_name(s: Seq<u8>) -> bool {
    &&& spec_file_name(s).len() > 0
    &&& spec_file_name(s) != seq![46u8]
    &&& spec_file_name(s) != seq![46u8, 46u8]
}

/// The length of the path once its trailing directory markers are stripped.
fn trim_dir_tail_len(path: &Vec<u8>) -> (m: usize)
    ensures
        m <= path@.len(),
        path@.take(m as int) == spec_trim_dir_tail(path@),
{
    let n = path.len();
    let mut m: usize = n;
    proof {
        assert(path@.take(n as int) =~= path@);
    }
    while (m > 0 && path[m - 1] == 47) || (m >= 2 && path[m - 1] == 46 && path[m - 2] == 47)
        invariant
            n == path@.len(),
            0 <= m <= n,
            spec_trim_dir_tail(path@.take(m as int)) == spec_trim_dir_tail(path@),
        decreases m,
    {
        let ghost before = path@.take(m as int);
        if path[m - 1] == 47 {
            proof {
                assert(before.last() == 47);
                assert(before.drop_last() =~= path@.take(m - 1));
            }
            m = m - 1;
        } else {
            proof {
                assert(before.last() == 46 && before[before.len() - 2] == 47);
                assert(before.take(before.len() - 2) =~= path@.take(m - 2));
            }
            m = m - 2;
        }
    }
    proof {
        let t = path@.take(m as int);
        assert(!(t.len() > 0 && t.last() == 47));
        assert(!(t.len() >= 2 && t.last() == 46 && t[t.len() - 2] == 47));
        assert(spec_trim_dir_tail(t) == t);
    }
    m
}

/// The final component of a path that names a file.
pub fn get_file_name_expect(file_path: &Vec<u8>) -> (r: Vec<u8>)
    requires
        spec_has_file_name(file_path@),
    ensures
        r@ == spec_file_name(file_path@),
{
    let m = trim_dir_tail_len(file_path);
    let ghost trimmed = spec_trim_dir_tail(file_path@);
    let mut cut: usize = m;
    while cut > 0 && file_path[cut - 1] != 47
        invariant
            m <= file_path@.len(),
            0 <= cut <= m,
            forall|j: int| cut <= j < m ==> file_path@[j] != 47,
        decreases cut,
    {
        cut = cut - 1;
    }
    proof {
        assert(forall|j: int| 0 <= j < m ==> trimmed[j] == file_path@[j]);
        lemma_after_last_slash_at(trimmed, cut as int);
    }
    let mut r: Vec<u8> = Vec::new();
    let mut i: usize = cut;
    while i < m
        invariant
            m <= file_path@.len(),
            cut <= i <= m,
            r@ =~= file_path@.subrange(cut as int, i as int),
        decreases m - i,
    {
        r.push(file_path[i]);
        proof {
            assert(r@ =~= file_path@.subrange(cut as int, i + 1));
        }
        i = i + 1;
    }
    proof {
        assert(file_path@.subrange(cut as int, m as int) =~= trimmed.skip(cut as int));
    }
    r
}

/// A cut right after a `/`, or at the start with no `/` behind it, is where
/// the final component begins.
proof fn lemma_after_last_slash_at(s: Seq<u8>, cut: int)
    requires
        0 <= cut <= s.len(),
        forall|j: int| cut <= j < s.len() ==> s[j] != 47,
        cut > 0 ==> s[cut - 1] == 47,
    ensures
        spec_after_last_slash(s) == cut,
    decreases s.len(),
{
    if s.len() == 0 {
    } else if s.last() == 47 {
        assert(cut == s.len());
    } else {
        assert(cut < s.len());
        lemma_after_last_slash_at(s.drop_last(), cut);
    }
}

/// The path of the partial download beside a file: the file's path — its
/// trailing directory markers stripped — with `.part` appended to its name.
pub fn create_partfile_path(file_path: &Vec<u8>) -> (r: Vec<u8>)
    requires
        spec_has_file_name(file_path@),
    ensures
        r@ == spec_trim_dir_tail(file_path@) + part_suffix(),
{
    let m = trim_dir_tail_len(file_path);
    let mut r: Vec<u8> = Vec::new();
    let mut i: usize = 0;
    while i < m
        invariant
            m <= file_path@.len(),
            0 <= i <= m,
            r@ =~= file_path@.take(i as int),
        decreases m - i,
    {
        r.push(file_path[i]);
        proof {
            assert(r@ =~= file_path@.take(i + 1));
        }
        i = i + 1;
    }
    r.push(46);
    r.push(112);
    r.push(97);
    r.push(114);
    r.push(116);
    proof {
        assert(r@ =~= spec_trim_dir_tail(file_path@) + part_suffix());
    }
    r
}

/// The name of the partial download of a file: the name with `.part`
/// appended.
pub fn create_partfile_name(filename: &Vec<u8>) -> (r: Vec<u8>)
    ensures
        r@ == filename@ + part_suffix(),
{
    let n = filename.len();
    let mut r: Vec<u8> = Vec::new();
    let mut i: usize = 0;
    while i < n
        invariant
            n == filename@.len(),
            0 <= i <= n,
            r@ =~= filename@.take(i as int),
        decreases n - i,
    {
        r.push(filename[i]);
        proof {
            assert(r@ =~= filename@.take(i + 1));
        }
        i = i + 1;
    }
    r.push(46);
    r.push(112);
    r.push(97);
    r.push(114);
    r.push(116);
    proof {
        assert(filename@.take(n as int) =~= filename@);
        assert(r@ =~= filename@ + part_suffix());
    }
    r
}

} // verus!
