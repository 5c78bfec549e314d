use memstore::floattext::is_float_text;

fn chars(s: &str) -> Vec<char> {
    s.chars().collect()
}

#[test]
fn float_shape_matches_std_parser() {
    let cases = [
        "", "1", "-1", "+1", "0", "1.", ".5", "5.", "1.5", "-1.5", "1.5e3", "1.5E3", "1e5",
        "1E+5", "1e-5", ".5e2", "5.e2", "1e999", "-0.000001", "+.25",
        "inf", "INF", "Inf", "-inf", "+inf", "infinity", "Infinity", "iNfInItY", "nan", "NaN",
        "NAN", "+nan", "-nan",
        ".", "+", "-", "e5", "1e", "1e+", "1e-", "1e5.5", "1.2.3", "--1", "+-1", " 1", "1 ",
        "1,5", "0x1", "1_000", "infx", "nana", "in", "na", "infinit", "infinityy", "1|2",
        "\u{0661}",
    ];
    for s in cases {
        assert_eq!(
            is_float_text(&chars(s)),
            s.parse::<f32>().is_ok(),
            "mismatch for {s:?}"
        );
    }
}

#[test]
fn rendered_floats_are_float_shaped() {
    for v in [0.0f32, 1.0, -2.5, 0.000001, 12345.6789] {
        let six = format!("{:.6}", v);
        assert!(is_float_text(&chars(&six)), "rejected {six:?}");
        let plain = format!("{}", v);
        assert!(is_float_text(&chars(&plain)), "rejected {plain:?}");
    }
}
