use memstore::text::escape;
use memstore::text::flatten_newlines;
use memstore::text::tokenize;
use memstore::text::unescape;

#[test]
fn escape_protects_specials() {
    assert_eq!(escape("a|b"), "a\\|b");
    assert_eq!(escape("a\nb"), "a\\nb");
    assert_eq!(escape("a\\b"), "a\\\\b");
    assert_eq!(escape("plain"), "plain");
    assert_eq!(escape(""), "");
}

#[test]
fn unescape_reverses_escape() {
    let cases = [
        "",
        "plain",
        "a|b",
        "a\nb",
        "a\\b",
        "a|b\nc\\d",
        "||||",
        "\\\\",
        "\\n",
        "mixed | text \n with \\ everything",
        "unicode \u{00e4}\u{00df}\u{4e16}\u{754c}|x",
    ];
    for s in cases {
        assert_eq!(unescape(&escape(s)), s, "round trip failed for {s:?}");
    }
}

#[test]
fn unescape_keeps_unknown_pairs_and_trailing_backslash() {
    assert_eq!(unescape("\\x"), "\\x");
    assert_eq!(unescape("\\"), "\\");
    assert_eq!(unescape("a\\tb"), "a\\tb");
    assert_eq!(unescape("\\n\\|\\\\"), "\n|\\");
}

#[test]
fn flatten_turns_newlines_into_spaces() {
    assert_eq!(flatten_newlines("line one\nline two\n"), "line one line two ");
    assert_eq!(flatten_newlines("no newline"), "no newline");
    assert_eq!(flatten_newlines(""), "");
}

#[test]
fn tokenize_splits_and_lowercases() {
    assert_eq!(tokenize("Hello, WORLD-42!"), vec!["hello", "world", "42"]);
    assert_eq!(tokenize("alpha beta gamma"), vec!["alpha", "beta", "gamma"]);
    assert_eq!(tokenize("  one  "), vec!["one"]);
}

#[test]
fn tokenize_empty_and_symbols() {
    assert!(tokenize("").is_empty());
    assert!(tokenize("   \t\n").is_empty());
    assert!(tokenize("!@#$%^&*()").is_empty());
}

#[test]
fn tokenize_passes_non_ascii_through() {
    // Non-ASCII letters are alphanumeric but the fold is ASCII-only.
    assert_eq!(tokenize("\u{00c4}rger"), vec!["\u{00c4}rger"]);
    assert_eq!(tokenize("caf\u{00e9} bar"), vec!["caf\u{00e9}", "bar"]);
}
