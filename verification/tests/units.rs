use wikidumpgrep::dumptool::create_partfile_name;
use wikidumpgrep::dumptool::create_partfile_path;
use wikidumpgrep::dumptool::get_file_in_dir;
use wikidumpgrep::dumptool::get_file_name_expect;
use wikidumpgrep::dumptool::get_human_size;
use wikidumpgrep::dumptool::get_target_file_name;
use wikidumpgrep::dumptool::u64_to_decimal;
use wikidumpgrep::errors::Error;
use wikidumpgrep::options::ColorChoice;
use wikidumpgrep::options::SearchOptions;
use wikidumpgrep::partition::PART_SIZE_LIMIT;
use wikidumpgrep::partition::ceiling_div;
use wikidumpgrep::partition::ranges_for_plain_file;
use wikidumpgrep::partition::streaming_range;
use wikidumpgrep::resolve::DumpFileCandidate;
use wikidumpgrep::resolve::lex_le_bytes;
use wikidumpgrep::resolve::resolve_dump_files;
use wikidumpgrep::resolve::stem_len;
use wikidumpgrep::resolve::stems_equal;

#[test]
fn ceiling_div_rounds_up() {
    assert_eq!(ceiling_div(10, 3), 4);
    assert_eq!(ceiling_div(9, 3), 3);
    assert_eq!(ceiling_div(0, 7), 0);
    assert_eq!(ceiling_div(1, 7), 1);
}

#[test]
fn partition_of_small_file_is_one_range() {
    let rs = ranges_for_plain_file(1000);
    assert_eq!(rs.len(), 1);
    assert_eq!((rs[0].start, rs[0].end, rs[0].seekable), (0, 1000, true));
}

#[test]
fn partition_of_empty_file() {
    let rs = ranges_for_plain_file(0);
    assert_eq!(rs.len(), 1);
    assert_eq!((rs[0].start, rs[0].end), (0, 0));
}

#[test]
fn partition_covers_file_without_gaps() {
    let len: u64 = 1_200_000_000;
    let rs = ranges_for_plain_file(len);
    assert_eq!(rs.len(), 3);
    assert_eq!(rs[0].start, 0);
    assert_eq!(rs[rs.len() - 1].end, len);
    for w in rs.windows(2) {
        assert_eq!(w[0].end, w[1].start);
    }
    for r in &rs {
        assert!(r.end - r.start <= PART_SIZE_LIMIT);
        assert!(r.seekable);
    }
}

#[test]
fn streaming_range_is_unbounded_and_unseekable() {
    let r = streaming_range();
    assert_eq!(r.start, 0);
    assert_eq!(r.end, u64::MAX);
    assert!(!r.seekable);
}

#[test]
fn lexicographic_order_on_names() {
    assert!(lex_le_bytes(&b"a".to_vec(), &b"b".to_vec()));
    assert!(lex_le_bytes(&b"a".to_vec(), &b"a".to_vec()));
    assert!(lex_le_bytes(&b"a".to_vec(), &b"ab".to_vec()));
    assert!(!lex_le_bytes(&b"ab".to_vec(), &b"a".to_vec()));
    assert!(lex_le_bytes(&b"x.xml".to_vec(), &b"x.xml.7z".to_vec()));
    assert!(lex_le_bytes(&b"x.xml.7z".to_vec(), &b"x.xml.bz2".to_vec()));
}

#[test]
fn stems_strip_compression_suffixes() {
    assert_eq!(stem_len(&b"x.xml.7z".to_vec()), 5);
    assert_eq!(stem_len(&b"x.xml.bz2".to_vec()), 5);
    assert_eq!(stem_len(&b"x.xml".to_vec()), 5);
    assert!(stems_equal(&b"x.xml".to_vec(), &b"x.xml.bz2".to_vec()));
    assert!(stems_equal(&b"x.xml.7z".to_vec(), &b"x.xml.bz2".to_vec()));
    assert!(!stems_equal(&b"x.xml".to_vec(), &b"y.xml".to_vec()));
}

fn candidate(path: &[u8], size: u64) -> DumpFileCandidate {
    DumpFileCandidate {
        path: path.to_vec(),
        size,
    }
}

#[test]
fn prefix_resolution_with_dedup() {
    let candidates = vec![
        candidate(b"wiki-20200101.xml", 100),
        candidate(b"wiki-20200101.xml.7z", 10),
        candidate(b"wiki-20200101.xml.bz2", 20),
        candidate(b"wiki-20200201.xml.bz2", 30),
    ];
    let (files, total) = resolve_dump_files(&candidates).unwrap();
    assert_eq!(
        files,
        vec![b"wiki-20200101.xml".to_vec(), b"wiki-20200201.xml.bz2".to_vec()]
    );
    // the total counts only the files returned, not the removed variants
    assert_eq!(total, 130);
}

#[test]
fn resolver_prefers_7z_over_bz2() {
    let candidates = vec![
        candidate(b"dump.xml.bz2", 1),
        candidate(b"dump.xml.7z", 2),
    ];
    let (files, total) = resolve_dump_files(&candidates).unwrap();
    assert_eq!(files, vec![b"dump.xml.7z".to_vec()]);
    assert_eq!(total, 2);
}

#[test]
fn resolver_sorts_unrelated_names() {
    let candidates = vec![
        candidate(b"b.xml", 2),
        candidate(b"a.xml", 1),
        candidate(b"c.xml", 3),
    ];
    let (files, _) = resolve_dump_files(&candidates).unwrap();
    assert_eq!(
        files,
        vec![b"a.xml".to_vec(), b"b.xml".to_vec(), b"c.xml".to_vec()]
    );
}

#[test]
fn resolver_total_excludes_removed_variants() {
    let candidates = vec![candidate(b"a.xml", 10), candidate(b"a.xml.bz2", 20)];
    let (files, total) = resolve_dump_files(&candidates).unwrap();
    assert_eq!(files, vec![b"a.xml".to_vec()]);
    assert_eq!(total, 10);
}

#[test]
fn resolver_rejects_empty_candidate_list() {
    let err = resolve_dump_files(&Vec::new()).unwrap_err();
    assert_eq!(err.kind_name(), "no-dump-files-found");
}

#[test]
fn search_options_defaults() {
    let o = SearchOptions::new();
    assert!(o.restrict_namespaces.is_none());
    assert!(!o.only_print_title);
    assert!(o.thread_count.is_none());
    assert_eq!(o.binary_7z, "7z");
    assert_eq!(o.options_7z, vec!["e".to_string(), "-so".to_string()]);
    assert_eq!(o.binary_bzcat, "bzcat");
    assert!(o.options_bzcat.is_empty());
    assert_eq!(o.color_choice, ColorChoice::Never);
}

#[test]
fn search_options_builders() {
    let mut o = SearchOptions::default();
    o.restrict_namespaces(vec![b"0".to_vec(), b"14".to_vec()]);
    o.only_print_title(true);
    o.with_thread_count(4);
    o.with_binary_7z("7zz".to_string());
    o.with_options_7z(vec!["x".to_string()]);
    o.with_binary_bzcat("pbzcat".to_string());
    o.with_options_bzcat(vec!["-q".to_string()]);
    o.with_color_choice(ColorChoice::Auto);
    assert_eq!(
        o.restrict_namespaces,
        Some(vec![b"0".to_vec(), b"14".to_vec()])
    );
    assert!(o.only_print_title);
    assert_eq!(o.thread_count, Some(4));
    assert_eq!(o.binary_7z, "7zz");
    assert_eq!(o.options_7z, vec!["x".to_string()]);
    assert_eq!(o.binary_bzcat, "pbzcat");
    assert_eq!(o.options_bzcat, vec!["-q".to_string()]);
    assert_eq!(o.color_choice, ColorChoice::Auto);
}

#[test]
fn error_kind_names() {
    assert_eq!(Error::Io("x".to_string()).kind_name(), "io");
    assert_eq!(Error::Utf8("x".to_string()).kind_name(), "utf8");
    assert_eq!(Error::Xml("page".to_string()).kind_name(), "xml");
    assert_eq!(Error::Regex("x".to_string()).kind_name(), "regex");
    assert_eq!(
        Error::OnlyTextExpectedInTag("title".to_string()).kind_name(),
        "only-text-expected-in-tag"
    );
    assert_eq!(
        Error::UnexpectedEmptyTag("id".to_string()).kind_name(),
        "unexpected-empty-tag"
    );
    assert_eq!(
        Error::CouldNotGetCurrentDir("x".to_string()).kind_name(),
        "could-not-get-current-dir"
    );
    assert_eq!(
        Error::DumpFileOrPrefixInvalid.kind_name(),
        "dump-file-or-prefix-invalid"
    );
    assert_eq!(Error::NoDumpFilesFound.kind_name(), "no-dump-files-found");
    assert_eq!(
        Error::SubCommandCouldNotBeStarted("x".to_string()).kind_name(),
        "subcommand-could-not-be-started"
    );
    assert_eq!(
        Error::SubCommandTerminatedUnsuccessfully(1, "boom".to_string()).kind_name(),
        "subcommand-terminated-unsuccessfully"
    );
}

#[test]
fn target_file_name_strips_bz2_when_decompressing() {
    assert_eq!(
        get_target_file_name(&b"a.xml.bz2".to_vec(), true),
        b"a.xml".to_vec()
    );
    assert_eq!(
        get_target_file_name(&b"a.xml.bz2".to_vec(), false),
        b"a.xml.bz2".to_vec()
    );
    assert_eq!(get_target_file_name(&b"a.xml".to_vec(), true), b"a.xml".to_vec());
}

#[test]
fn file_in_dir_joins_with_separator() {
    assert_eq!(
        get_file_in_dir(&b"/data".to_vec(), &b"x.xml".to_vec()),
        b"/data/x.xml".to_vec()
    );
    assert_eq!(
        get_file_in_dir(&b"/data/".to_vec(), &b"x.xml".to_vec()),
        b"/data/x.xml".to_vec()
    );
    assert_eq!(get_file_in_dir(&b"".to_vec(), &b"x.xml".to_vec()), b"x.xml".to_vec());
}

#[test]
fn human_sizes() {
    assert_eq!(get_human_size(0), "0 bytes");
    assert_eq!(get_human_size(512), "512 bytes");
    assert_eq!(get_human_size(999), "999 bytes");
    assert_eq!(get_human_size(1000), "0.98 KiB");
    assert_eq!(get_human_size(1024), "1.00 KiB");
    assert_eq!(get_human_size(1536), "1.50 KiB");
    assert_eq!(get_human_size(1048576), "1.00 MiB");
    assert_eq!(get_human_size(1073741824), "1.00 GiB");
    assert_eq!(get_human_size(1099511627776), "1.00 TiB");
    assert_eq!(get_human_size(1125899906842624), "1.00 PiB");
}

#[test]
fn decimal_rendering() {
    assert_eq!(u64_to_decimal(0), b"0".to_vec());
    assert_eq!(u64_to_decimal(7), b"7".to_vec());
    assert_eq!(u64_to_decimal(1234), b"1234".to_vec());
    assert_eq!(u64_to_decimal(u64::MAX), b"18446744073709551615".to_vec());
}

#[test]
fn file_name_and_partfile_helpers() {
    assert_eq!(
        get_file_name_expect(&b"a/b/c.xml".to_vec()),
        b"c.xml".to_vec()
    );
    assert_eq!(get_file_name_expect(&b"c.xml".to_vec()), b"c.xml".to_vec());
    // trailing directory markers are normalized away, as path handling does
    assert_eq!(get_file_name_expect(&b"a/b/".to_vec()), b"b".to_vec());
    assert_eq!(get_file_name_expect(&b"a/b/.".to_vec()), b"b".to_vec());
    assert_eq!(
        create_partfile_path(&b"a/b.xml".to_vec()),
        b"a/b.xml.part".to_vec()
    );
    assert_eq!(
        create_partfile_path(&b"a/b/".to_vec()),
        b"a/b.part".to_vec()
    );
    assert_eq!(
        create_partfile_name(&b"b.xml".to_vec()),
        b"b.xml.part".to_vec()
    );
}

#[test]
fn each_position_owned_by_exactly_one_range() {
    let len: u64 = 1_200_000_000;
    let rs = ranges_for_plain_file(len);
    for pos in [0u64, 1, 399_999_999, 400_000_000, 1_199_999_999] {
        let owners = rs
            .iter()
            .filter(|r| r.start <= pos && pos < r.end)
            .count();
        assert_eq!(owners, 1);
    }
}
