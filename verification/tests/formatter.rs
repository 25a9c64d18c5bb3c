use wikidumpgrep::format::find_in_text;
use wikidumpgrep::output::OutputBuffer;
use wikidumpgrep::rx::CompiledRegex;

fn get_find_in_text_ansi_result(text: &str, pattern: &str) -> String {
    let re = CompiledRegex::compile(pattern).unwrap();
    let text_bytes = text.as_bytes().to_vec();
    let mut buffer = OutputBuffer::new(true);
    find_in_text(
        &mut buffer,
        &b"title".to_vec(),
        &b"revision_id".to_vec(),
        &text_bytes,
        &re,
    );
    String::from_utf8(buffer.bytes).expect("Output is not UTF-8")
}

#[test]
fn test_print() {
    let text = "Abc Xyz Abc Xyz\n123 456\nAbc Xyz Abc Xyz\n";
    assert_eq!(get_find_in_text_ansi_result(text, "Abc"),
        "\u{1b}[0m\u{1b}[36mtitle\u{1b}[0m@\u{1b}[0m\u{1b}[33mrevision_id\n\u{1b}[0m\u{1b}[0m\u{1b}[31mAbc\u{1b}[0m Xyz \u{1b}[0m\u{1b}[31mAbc\u{1b}[0m Xyz\n\u{1b}[0m\u{1b}[31mAbc\u{1b}[0m Xyz \u{1b}[0m\u{1b}[31mAbc\u{1b}[0m Xyz\n\n"
    );
    assert_eq!(get_find_in_text_ansi_result(text, "^"),
        "\u{1b}[0m\u{1b}[36mtitle\u{1b}[0m@\u{1b}[0m\u{1b}[33mrevision_id\n\u{1b}[0m\u{1b}[0m\u{1b}[31m\u{1b}[0mAbc Xyz Abc Xyz\n\n"
    );
    assert_eq!(get_find_in_text_ansi_result(text, "Xyz\\n"),
        "\u{1b}[0m\u{1b}[36mtitle\u{1b}[0m@\u{1b}[0m\u{1b}[33mrevision_id\n\u{1b}[0mAbc Xyz Abc \u{1b}[0m\u{1b}[31mXyz\u{1b}[0m\nAbc Xyz Abc \u{1b}[0m\u{1b}[31mXyz\u{1b}[0m\n\n"
    );
    assert_eq!(
        get_find_in_text_ansi_result(text, "\\n"),
        "\u{1b}[0m\u{1b}[36mtitle\u{1b}[0m@\u{1b}[0m\u{1b}[33mrevision_id\n\u{1b}[0mAbc Xyz Abc Xyz\u{1b}[0m\u{1b}[31m\u{1b}[0m\n123 456\u{1b}[0m\u{1b}[31m\u{1b}[0m\nAbc Xyz Abc Xyz\u{1b}[0m\u{1b}[31m\u{1b}[0m\n\n"
    );
    assert_eq!(
        get_find_in_text_ansi_result(text, "123"),
        "\u{1b}[0m\u{1b}[36mtitle\u{1b}[0m@\u{1b}[0m\u{1b}[33mrevision_id\n\u{1b}[0m\u{1b}[0m\u{1b}[31m123\u{1b}[0m 456\n\n"
    );
    assert_eq!(
        get_find_in_text_ansi_result(text, "."),
        "\u{1b}[0m\u{1b}[36mtitle\u{1b}[0m@\u{1b}[0m\u{1b}[33mrevision_id\n\u{1b}[0m\u{1b}[0m\u{1b}[31mA\u{1b}[0m\u{1b}[0m\u{1b}[31mb\u{1b}[0m\u{1b}[0m\u{1b}[31mc\u{1b}[0m\u{1b}[0m\u{1b}[31m \u{1b}[0m\u{1b}[0m\u{1b}[31mX\u{1b}[0m\u{1b}[0m\u{1b}[31my\u{1b}[0m\u{1b}[0m\u{1b}[31mz\u{1b}[0m\u{1b}[0m\u{1b}[31m \u{1b}[0m\u{1b}[0m\u{1b}[31mA\u{1b}[0m\u{1b}[0m\u{1b}[31mb\u{1b}[0m\u{1b}[0m\u{1b}[31mc\u{1b}[0m\u{1b}[0m\u{1b}[31m \u{1b}[0m\u{1b}[0m\u{1b}[31mX\u{1b}[0m\u{1b}[0m\u{1b}[31my\u{1b}[0m\u{1b}[0m\u{1b}[31mz\u{1b}[0m\n\u{1b}[0m\u{1b}[31m1\u{1b}[0m\u{1b}[0m\u{1b}[31m2\u{1b}[0m\u{1b}[0m\u{1b}[31m3\u{1b}[0m\u{1b}[0m\u{1b}[31m \u{1b}[0m\u{1b}[0m\u{1b}[31m4\u{1b}[0m\u{1b}[0m\u{1b}[31m5\u{1b}[0m\u{1b}[0m\u{1b}[31m6\u{1b}[0m\n\u{1b}[0m\u{1b}[31mA\u{1b}[0m\u{1b}[0m\u{1b}[31mb\u{1b}[0m\u{1b}[0m\u{1b}[31mc\u{1b}[0m\u{1b}[0m\u{1b}[31m \u{1b}[0m\u{1b}[0m\u{1b}[31mX\u{1b}[0m\u{1b}[0m\u{1b}[31my\u{1b}[0m\u{1b}[0m\u{1b}[31mz\u{1b}[0m\u{1b}[0m\u{1b}[31m \u{1b}[0m\u{1b}[0m\u{1b}[31mA\u{1b}[0m\u{1b}[0m\u{1b}[31mb\u{1b}[0m\u{1b}[0m\u{1b}[31mc\u{1b}[0m\u{1b}[0m\u{1b}[31m \u{1b}[0m\u{1b}[0m\u{1b}[31mX\u{1b}[0m\u{1b}[0m\u{1b}[31my\u{1b}[0m\u{1b}[0m\u{1b}[31mz\u{1b}[0m\n\n"
    );
    assert_eq!(
        get_find_in_text_ansi_result(text, ".*"),
        "\u{1b}[0m\u{1b}[36mtitle\u{1b}[0m@\u{1b}[0m\u{1b}[33mrevision_id\n\u{1b}[0m\u{1b}[0m\u{1b}[31mAbc Xyz Abc Xyz\u{1b}[0m\n\u{1b}[0m\u{1b}[31m123 456\u{1b}[0m\n\u{1b}[0m\u{1b}[31mAbc Xyz Abc Xyz\u{1b}[0m\n\u{1b}[0m\u{1b}[31m\u{1b}[0m\n\n"
    );
    assert_eq!(
        get_find_in_text_ansi_result(text, "(.|\\n)*"),
        "\u{1b}[0m\u{1b}[36mtitle\u{1b}[0m@\u{1b}[0m\u{1b}[33mrevision_id\n\u{1b}[0m\u{1b}[0m\u{1b}[31mAbc Xyz Abc Xyz\n123 456\nAbc Xyz Abc Xyz\u{1b}[0m\n\n"
    );
    assert_eq!(get_find_in_text_ansi_result(text, "no_match"), "");
}

#[test]
fn lib_test_print() {
    let mut buffer = OutputBuffer::new(false);
    let title = b"title".to_vec();
    let revision_id = b"revision_id".to_vec();
    let short = b"Abc Xyz Abc Xyz\n123 456\nAbc Xyz Abc Xyz".to_vec();
    let full = b"Abc Xyz Abc Xyz\n123 456\nAbc Xyz Abc Xyz\n".to_vec();
    for (text, pattern) in [
        (&short, "Abc"),
        (&short, "^"),
        (&full, "Xyz\n"),
        (&full, "\n"),
        (&full, "123"),
    ] {
        let re = CompiledRegex::compile(pattern).unwrap();
        find_in_text(&mut buffer, &title, &revision_id, text, &re);
    }
    assert!(!buffer.bytes.is_empty());
}

#[test]
fn plain_output_has_no_escape_bytes() {
    let re = CompiledRegex::compile("Abc").unwrap();
    let text = b"Abc Xyz\n".to_vec();
    let mut buffer = OutputBuffer::new(false);
    find_in_text(&mut buffer, &b"T".to_vec(), &b"1".to_vec(), &text, &re);
    assert_eq!(String::from_utf8(buffer.bytes).unwrap(), "T@1\nAbc Xyz\n\n");
}

#[test]
fn color_escapes_are_balanced() {
    let out = get_find_in_text_ansi_result("Abc Xyz\nAbc\n", "Abc");
    let set_colors = out.matches("\u{1b}[3").count();
    let resets = out.matches("\u{1b}[0m").count();
    // every set-color is introduced by a reset and closed by a reset
    assert_eq!(resets, 2 * set_colors);
}

#[test]
fn zero_width_match_at_start_colors_empty_span() {
    // a zero-width match at position zero: an empty red span, then the full
    // line in plain color
    let out = get_find_in_text_ansi_result("Hello\nWorld\n", "^");
    assert_eq!(
        out,
        "\u{1b}[0m\u{1b}[36mtitle\u{1b}[0m@\u{1b}[0m\u{1b}[33mrevision_id\n\u{1b}[0m\u{1b}[0m\u{1b}[31m\u{1b}[0mHello\n\n"
    );
}

#[test]
fn match_ending_at_newline_does_not_bleed() {
    // the trailing newline of the match stays uncolored and the next line is
    // not printed
    let out = get_find_in_text_ansi_result("one\ntwo\n", "one\\n");
    assert_eq!(
        out,
        "\u{1b}[0m\u{1b}[36mtitle\u{1b}[0m@\u{1b}[0m\u{1b}[33mrevision_id\n\u{1b}[0m\u{1b}[0m\u{1b}[31mone\u{1b}[0m\n\n"
    );
}
