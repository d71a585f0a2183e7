use json_diff_checker::json_diff::path::{append_index, append_key};
use json_diff_checker::json_diff::{encode_path, needs_escaping, parse_path, PathPart};

fn key(text: &str) -> PathPart {
    PathPart::Key(text.to_string())
}

#[test]
fn parses_dotted_keys() {
    assert_eq!(parse_path("a.b.c"), vec![key("a"), key("b"), key("c")]);
}

#[test]
fn parses_indices() {
    assert_eq!(parse_path("arr[0]"), vec![key("arr"), PathPart::Index(0)]);
    assert_eq!(
        parse_path("a[10].b[2]"),
        vec![key("a"), PathPart::Index(10), key("b"), PathPart::Index(2)]
    );
    assert_eq!(parse_path("[3]"), vec![PathPart::Index(3)]);
}

#[test]
fn parses_quoted_key() {
    assert_eq!(parse_path("[\"a.b\"]"), vec![key("a.b")]);
    assert_eq!(parse_path("x[\"a[0]\"].y"), vec![key("x"), key("a[0]"), key("y")]);
}

#[test]
fn parses_escapes_in_quoted_key() {
    assert_eq!(parse_path("[\"a\\\"b\"]"), vec![key("a\"b")]);
    assert_eq!(parse_path("[\"a\\\\b\"]"), vec![key("a\\b")]);
    assert_eq!(parse_path("[\"a\\.b\"]"), vec![key("a.b")]);
}

#[test]
fn empty_string_has_no_steps() {
    assert_eq!(parse_path(""), Vec::<PathPart>::new());
}

#[test]
fn dots_give_no_steps_of_their_own() {
    assert_eq!(parse_path("..a..b."), vec![key("a"), key("b")]);
    assert_eq!(parse_path("."), Vec::<PathPart>::new());
}

#[test]
fn malformed_index_is_dropped() {
    assert_eq!(parse_path("a[x]b"), vec![key("a"), key("b")]);
    assert_eq!(parse_path("a[]"), vec![key("a")]);
    assert_eq!(parse_path("a[1x]"), vec![key("a")]);
    assert_eq!(parse_path("a[-1]"), vec![key("a")]);
    assert_eq!(parse_path("a[+]"), vec![key("a")]);
    assert_eq!(parse_path("a[ 1]"), vec![key("a")]);
}

#[test]
fn index_may_carry_a_plus_sign_and_leading_zeros() {
    assert_eq!(parse_path("[+5]"), vec![PathPart::Index(5)]);
    assert_eq!(parse_path("[007]"), vec![PathPart::Index(7)]);
}

#[test]
fn index_that_does_not_fit_is_dropped() {
    assert_eq!(
        parse_path("a[340282366920938463463374607431768211456]"),
        vec![key("a")]
    );
    let largest = usize::MAX;
    assert_eq!(
        parse_path(&format!("[{}]", largest)),
        vec![PathPart::Index(largest)]
    );
    assert_eq!(parse_path(&format!("[{}0]", largest)), Vec::<PathPart>::new());
}

#[test]
fn open_index_ends_with_the_string() {
    assert_eq!(parse_path("a[12"), vec![key("a"), PathPart::Index(12)]);
    assert_eq!(parse_path("a["), vec![key("a")]);
}

#[test]
fn open_quoted_key_ends_with_the_string() {
    assert_eq!(parse_path("[\"abc"), vec![key("abc")]);
    assert_eq!(parse_path("[\"abc\\"), vec![key("abc")]);
    assert_eq!(parse_path("[\""), vec![key("")]);
}

#[test]
fn quote_without_bracket_ends_the_key() {
    assert_eq!(parse_path("[\"a\"x]"), vec![key("a"), key("x]")]);
    assert_eq!(parse_path("[\"a\"][\"b\"]"), vec![key("a"), key("b")]);
}

#[test]
fn closing_bracket_is_a_plain_character() {
    assert_eq!(parse_path("a]b"), vec![key("a]b")]);
    assert_eq!(parse_path("a\"b"), vec![key("a\"b")]);
}

#[test]
fn keys_may_hold_any_other_character() {
    assert_eq!(parse_path("größe.日本"), vec![key("größe"), key("日本")]);
}

#[test]
fn escaping_is_needed_for_the_four_characters() {
    assert!(needs_escaping("a.b"));
    assert!(needs_escaping("a[b"));
    assert!(needs_escaping("a]b"));
    assert!(needs_escaping("a\"b"));
    assert!(needs_escaping("."));
    assert!(!needs_escaping("ab"));
    assert!(!needs_escaping(""));
    assert!(!needs_escaping("a b\\c-d_e"));
}

#[test]
fn encodes_the_empty_path_as_the_empty_string() {
    assert_eq!(encode_path(&[]), "");
}

#[test]
fn encodes_bare_keys_with_dots() {
    assert_eq!(encode_path(&[key("a")]), "a");
    assert_eq!(encode_path(&[key("a"), key("b"), key("c")]), "a.b.c");
}

#[test]
fn encodes_indices_in_brackets() {
    assert_eq!(encode_path(&[PathPart::Index(0)]), "[0]");
    assert_eq!(
        encode_path(&[key("arr"), PathPart::Index(12), PathPart::Index(345)]),
        "arr[12][345]"
    );
    assert_eq!(
        encode_path(&[PathPart::Index(usize::MAX)]),
        format!("[{}]", usize::MAX)
    );
}

#[test]
fn encodes_keys_that_need_escaping_in_quotes() {
    assert_eq!(encode_path(&[key("a.b")]), "[\"a.b\"]");
    assert_eq!(encode_path(&[key("x"), key("a[0]")]), "x[\"a[0]\"]");
    assert_eq!(encode_path(&[key("a.b"), key("c")]), "[\"a.b\"].c");
}

#[test]
fn encodes_quotes_with_a_backslash() {
    assert_eq!(encode_path(&[key("say \"hi\"")]), "[\"say \\\"hi\\\"\"]");
}

#[test]
fn canonical_paths_are_read_back() {
    let paths = vec![
        vec![key("a")],
        vec![key("a"), key("b")],
        vec![key("a.b"), PathPart::Index(3), key("say \"hi\""), key("z")],
        vec![PathPart::Index(0), PathPart::Index(1), key("k")],
        vec![key("with space"), key("back\\slash")],
        vec![key("x]"), key("[y")],
    ];
    for path in paths {
        let text = encode_path(&path);
        assert_eq!(parse_path(&text), path);
        assert_eq!(encode_path(&parse_path(&text)), text);
    }
}

#[test]
fn empty_key_is_lost_in_the_canonical_form() {
    let text = encode_path(&[key("a"), key("")]);
    assert_eq!(text, "a.");
    assert_eq!(parse_path(&text), vec![key("a")]);
}

#[test]
fn backslash_in_a_quoted_key_is_read_as_an_escape() {
    let text = encode_path(&[key("a\\.b")]);
    assert_eq!(text, "[\"a\\.b\"]");
    assert_eq!(parse_path(&text), vec![key("a.b")]);
}

#[test]
fn index_bodies_are_read_as_the_standard_library_reads_them() {
    let bodies = [
        "0", "1", "42", "007", "+0", "+42", "++1", "+-1", "-0", "-", "+", "", " ", "1 ", " 1",
        "1_000", "0x10", "1e3", "1.0", "١٢", "４２", "99999999999999999999", "18446744073709551615",
        "18446744073709551616", "+18446744073709551615", "000000000000000000000000000001",
        "4294967295", "4294967296", "a", "1a", "a1",
    ];
    for body in bodies {
        let expected: Vec<PathPart> = match body.parse::<usize>() {
            Ok(index) => vec![PathPart::Index(index)],
            Err(_) => vec![],
        };
        assert_eq!(parse_path(&format!("[{}]", body)), expected, "{:?}", body);
        assert_eq!(parse_path(&format!("[{}", body)), expected, "{:?}", body);
    }
}

#[test]
fn steps_are_appended_one_at_a_time() {
    assert_eq!(append_key("", true, "a"), "a");
    assert_eq!(append_key("a", false, "b"), "a.b");
    assert_eq!(append_key("", false, "b"), ".b");
    assert_eq!(append_key("a", false, "b.c"), "a[\"b.c\"]");
    assert_eq!(append_key("", true, "b\"c"), "[\"b\\\"c\"]");
    assert_eq!(append_key("a", false, ""), "a.");
    assert_eq!(append_index("a", 0), "a[0]");
    assert_eq!(append_index("", 1234567890), "[1234567890]");
}
