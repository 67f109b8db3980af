//! Edge cases of the accepted syntax and of the two heuristics.

use safe_regex_rs::{is_safe, safe_regex, Options, DEFAULT_LIMIT};

fn safe(p: &str) -> bool {
    safe_regex(p, Options::default())
}

#[test]
fn reversed_class_ranges_are_unsafe() {
    for p in [
        "[z-a]",
        "[b-a]",
        "x[b-a]y",
        "[a--]",
        r"[\x7a-\x61]",
        r"[\u0062-\u0061]",
        r"[\132-\101]",
        r"[\n-\b]",
        r"[\c-a]",
        "[\u{1F600}-a]",
        "[a-\u{1F600}-b]",
        "[^9-0]",
    ] {
        assert!(!safe(p), "{p:?}");
    }
}

#[test]
fn valid_class_ranges_stay_safe() {
    for p in [
        "[a-z]",
        "[a-a]",
        "[-a]",
        "[a-]",
        "[--a]",
        "[a-z-]",
        r"[\d-z]",
        r"[a-\d]",
        r"[\w-]",
        r"[\x61-\x7a]",
        r"[\u0061-\u007a]",
        r"[\101-\132]",
        r"[\0-\x1f]",
        r"[\b-\n]",
        r"[\ca-\cz]",
        r"[\]-a]",
        "[0-9A-Fa-f]+",
        "[\u{1F600}]",
        "[a-\u{1F600}]",
        r"[\x-z]",
    ] {
        assert!(safe(p), "{p:?}");
    }
}

#[test]
fn group_nesting_limit() {
    let nest = |d: usize| format!("{}a{}", "(".repeat(d), ")".repeat(d));
    assert!(safe(&nest(1)));
    assert!(safe(&nest(256)));
    assert!(!safe(&nest(257)));
    assert!(!safe(&nest(5000)));
}

#[test]
fn malformed_patterns_are_unsafe() {
    for p in [
        "\\", "a\\", "(a", "a)", ")", "(?>a)", "(?x)", "(?", "[a", "[\\", "*", "+a", "?", "a**",
        "(?<a", "(?<>a)", r"(?<\u{110000}>a)", r"(?<\u{}>a)", r"(?<\u{D800}>a)", r"(?<\x61>a)",
    ] {
        assert!(!safe(p), "{p:?}");
    }
}

#[test]
fn valid_syntax_is_analyzed() {
    for p in [
        "a*?", "a{2,3}?", "a{2,}", "(?:a)", "(?=a)b", "(?!a)b", "(?<=a)b", "(?<!a)b",
        "(?<a>x)(?<b>y)", "(?<a1>x)", r"(?<a>x)\k<a>", "a|", "|", "()", "^$", ".", r"\b\B",
        "(?<\u{e9}t\u{e9}>x)",
    ] {
        assert!(safe(p), "{p:?}");
    }
}

#[test]
fn documented_accuracy_cases() {
    // Linear in practice yet flagged: star height 2.
    assert!(!safe("(ab*)+"));
    // Exponential yet reported safe: star height 1.
    assert!(safe("(a|a)*"));
    // Height counts through any number of groups.
    assert!(!safe("(((a+)))*"));
    assert!(safe("(((a)))*"));
}

#[test]
fn saturated_brace_bounds() {
    // Both bounds saturate to the same ceiling, so the range is accepted.
    assert!(safe("a{99999999999999999999999,99999999999999999999998}"));
    assert!(!safe("a{99999999999999999999999,1}"));
    assert!(safe("a{0,99999999999999999999999}"));
}

#[test]
fn escaped_names_compare_by_character() {
    assert!(!safe(r"(?<a>x)(?<\u{61}>y)"));
    assert!(safe(r"(?<a>x)(?<\u{62}>y)"));
    assert!(!safe(r"(?<\uD801\uDC00>x)(?<\u{10400}>y)"));
}

#[test]
fn options_constructors() {
    assert_eq!(Options::new(7).limit, 7);
    assert_eq!(Options::default().limit, DEFAULT_LIMIT);
    assert_eq!(Options::default(), Options::new(25));
    assert!(is_safe(&"a?".repeat(25)));
    assert!(!is_safe(&"a?".repeat(26)));
}

#[test]
fn repetition_count_is_exact() {
    // Nine repetitions spread over groups and alternatives.
    let p = "(a*|b+)(c?d{2})e{1,}[x]*(?:f{3,4})\\d+(g)?";
    assert!(safe_regex(p, Options::new(9)));
    assert!(!safe_regex(p, Options::new(8)));
}

#[test]
fn starred_group_adds_one_level() {
    // Star height 0 inside: one level after wrapping, one more repetition.
    assert!(safe_regex("(abc)*", Options::new(1)));
    assert!(!safe_regex("(abc)*", Options::new(0)));
    assert!(safe_regex("([a-z]x)*", Options::new(1)));
    // Star height 1 inside: two levels after wrapping.
    assert!(safe("a+"));
    assert!(!safe("(a+)*"));
    assert!(!safe("([a-z]+x)*"));
    // The empty pattern wraps to `()*`.
    assert!(safe("()*"));
}

#[test]
fn starred_group_needs_a_spare_nesting_level() {
    let deepest = format!("{}{}", "(".repeat(256), ")".repeat(256));
    assert!(safe(&deepest));
    assert!(!safe(&format!("({deepest})*")));
    let shallower = format!("{}{}", "(".repeat(255), ")".repeat(255));
    assert!(safe(&format!("({shallower})*")));
}

#[test]
fn identifier_tables_are_consulted() {
    // U+0345 continues an identifier but cannot start one.
    assert!(safe(r"(?<a\u0345>x)"));
    assert!(!safe(r"(?<\u0345>x)"));
    // A digit continues but does not start a name.
    assert!(safe("(?<a1>x)"));
    assert!(!safe("(?<1a>x)"));
}

#[test]
fn named_references_must_name_a_group() {
    // A pattern with a named group reads `\k` as a reference to one of them.
    for p in [
        r"(?<$>)\k<b>",
        r"(?<a>x)\k",
        r"(?<a>x)\ka",
        r"(?<a>x)\k<a",
        r"(?<a>x)\k<>",
        r"(?<a>x)[\k]",
        r"(?<a>x)[a\k]",
        r"\k<b>(?<a>x)",
    ] {
        assert!(!safe(p), "{p:?}");
    }
    for p in [
        r"(?<a>x)\k<a>",
        r"\k<a>(?<a>x)",
        r"(?<a>x)(?<b>y)\k<b>\k<a>",
        r"(?<a>x)\k<\u0061>",
        r"(?<$>)\k<$>",
        r"(?<a>x)\k<a>*",
        r"(?<a>x)[\w]",
    ] {
        assert!(safe(p), "{p:?}");
    }
    // Without named groups, `\k` is a plain escape.
    for p in [r"\k", r"\k<a>", r"[\k]", r"a\k<b>c"] {
        assert!(safe(p), "{p:?}");
    }
}

#[test]
fn named_reference_counts_as_one_atom() {
    // `\k<a>*` repeats the reference: one repetition in all.
    assert!(safe_regex(r"(?<a>x)\k<a>*", Options::new(1)));
    assert!(!safe_regex(r"(?<a>x)\k<a>*", Options::new(0)));
    // A repeated reference inside a repeated group has star height 2.
    assert!(!safe(r"(?<a>x)(\k<a>+)*"));
}
