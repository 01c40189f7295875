use bote::pointer::{token_as_array_index, JsonPointer, PointerParseError};
use bote::predicate::{
    decode_string, quoted_string_eq, CompareOp, CompiledPredicate, Leaf, Literal, PredicateError,
    PredicateIr, Rank,
};

fn tokens(pointer: &str) -> Vec<String> {
    JsonPointer::parse(pointer).unwrap().tokens().to_vec()
}

#[test]
fn pointers_are_split_and_unescaped() {
    assert_eq!(tokens(""), Vec::<String>::new());
    assert_eq!(tokens("/"), vec![""]);
    assert_eq!(tokens("/foo/0"), vec!["foo", "0"]);
    assert_eq!(tokens("/a~1b/m~0n/~01"), vec!["a/b", "m~n", "~1"]);
    assert_eq!(tokens("//"), vec!["", ""]);
    assert_eq!(tokens("/\u{e9}/x y"), vec!["\u{e9}", "x y"]);
}

#[test]
fn pointer_errors() {
    let cases = [
        (
            "a",
            PointerParseError::MissingLeadingSlash,
            "JSON pointer must be empty or start with '/'",
        ),
        (
            "/a~2",
            PointerParseError::InvalidEscape { escape: '2' },
            "invalid escape '~2' (only ~0 and ~1 are valid)",
        ),
        (
            "/a~",
            PointerParseError::DanglingTilde,
            "dangling '~' at end of reference token",
        ),
        (
            "/a~/b",
            PointerParseError::DanglingTilde,
            "dangling '~' at end of reference token",
        ),
    ];
    for (pointer, error, message) in cases {
        assert_eq!(JsonPointer::parse(pointer), Err(error));
        assert_eq!(error.message(), message);
    }
    // The first error counts.
    assert_eq!(
        JsonPointer::parse("/~/~3"),
        Err(PointerParseError::DanglingTilde)
    );
}

#[test]
fn array_index_tokens() {
    assert_eq!(token_as_array_index("0"), Some(0));
    assert_eq!(token_as_array_index("10"), Some(10));
    assert_eq!(token_as_array_index("007"), None);
    assert_eq!(token_as_array_index("00"), None);
    assert_eq!(token_as_array_index(""), None);
    assert_eq!(token_as_array_index("-1"), None);
    assert_eq!(token_as_array_index("1a"), None);
    assert_eq!(token_as_array_index(&usize::MAX.to_string()), Some(usize::MAX));
    assert_eq!(token_as_array_index("99999999999999999999999"), None);
}

#[test]
fn quoted_strings_compare_by_what_they_spell() {
    assert_eq!(quoted_string_eq(br#""abc""#, "abc"), Ok(true));
    assert_eq!(quoted_string_eq(br#""abc""#, "abd"), Ok(false));
    assert_eq!(quoted_string_eq(br#""abc""#, "abc"), Ok(true));
    assert_eq!(quoted_string_eq(br#""a\nc""#, "a\nc"), Ok(true));
    assert_eq!(quoted_string_eq(br#""a\xc""#, "axc"), Err(()));
    assert_eq!(quoted_string_eq(b"abc", "abc"), Ok(false));
    assert_eq!(quoted_string_eq(b"\"", ""), Ok(false));
    assert_eq!(quoted_string_eq(b"\"\"", ""), Ok(true));
}

fn leaf(ir: PredicateIr) -> CompiledPredicate {
    CompiledPredicate::compile(&ir).unwrap()
}

fn only(p: &CompiledPredicate) -> &Leaf {
    assert_eq!(p.leaves().len(), 1);
    &p.leaves()[0]
}

fn text(s: &str) -> Literal {
    Literal::Str(s.to_string())
}

#[test]
fn string_tests() {
    let eq = leaf(PredicateIr::Eq { p: "/a".to_string(), v: text("b") });
    assert!(only(&eq).needs_value());
    assert_eq!(only(&eq).number(), None);
    assert!(only(&eq).satisfied_by(br#""b""#, None));
    assert!(only(&eq).satisfied_by(br#""b""#, None));
    assert!(!only(&eq).satisfied_by(br#""\x62""#, None));
    assert!(!only(&eq).satisfied_by(b"1", None));

    let lt = leaf(PredicateIr::Lt { p: "/a".to_string(), v: text("m") });
    assert!(only(&lt).satisfied_by(br#""lz""#, None));
    assert!(!only(&lt).satisfied_by(br#""m""#, None));
    assert!(!only(&lt).satisfied_by(br#""ma""#, None));
    assert!(!only(&lt).satisfied_by(b"3", None));

    let lte = leaf(PredicateIr::Lte { p: "/a".to_string(), v: text("m") });
    assert!(only(&lte).satisfied_by(br#""m""#, None));
    let gt = leaf(PredicateIr::Gt { p: "/a".to_string(), v: text("m") });
    assert!(only(&gt).satisfied_by(br#""ma""#, None));
    assert!(!only(&gt).satisfied_by(br#""m""#, None));
    let gte = leaf(PredicateIr::Gte { p: "/a".to_string(), v: text("m") });
    assert!(only(&gte).satisfied_by(br#""m""#, None));
    // The order is that of the bytes: a prefix comes first.
    assert!(!only(&gte).satisfied_by("\"l\u{e9}\"".as_bytes(), None));
    assert!(only(&gte).satisfied_by("\"\u{e9}\"".as_bytes(), None));
}

#[test]
fn number_tests_go_by_rank() {
    let bits = 1.5f64.to_bits();
    let table = [
        (CompareOp::Eq, [false, true, false, false]),
        (CompareOp::Lt, [true, false, false, false]),
        (CompareOp::Lte, [true, true, false, false]),
        (CompareOp::Gt, [false, false, true, false]),
        (CompareOp::Gte, [false, true, true, false]),
    ];
    for (op, want) in table {
        let p = "/n".to_string();
        let v = Literal::Num(bits);
        let ir = match op {
            CompareOp::Eq => PredicateIr::Eq { p, v },
            CompareOp::Lt => PredicateIr::Lt { p, v },
            CompareOp::Lte => PredicateIr::Lte { p, v },
            CompareOp::Gt => PredicateIr::Gt { p, v },
            CompareOp::Gte => PredicateIr::Gte { p, v },
        };
        let compiled = leaf(ir);
        assert_eq!(only(&compiled).number(), Some(bits));
        let ranks = [Rank::Less, Rank::Equal, Rank::Greater, Rank::Unordered];
        for (rank, expected) in ranks.into_iter().zip(want) {
            assert_eq!(op.holds(rank), expected);
            assert_eq!(only(&compiled).satisfied_by(b"2", Some(rank)), expected);
        }
        // Not a number: never.
        assert!(!only(&compiled).satisfied_by(b"\"2\"", None));
    }
}

#[test]
fn bool_and_null_tests_are_for_equality_only() {
    let t = leaf(PredicateIr::Eq { p: String::new(), v: Literal::Bool(true) });
    assert!(only(&t).satisfied_by(b"true", None));
    assert!(!only(&t).satisfied_by(b"false", None));
    let f = leaf(PredicateIr::Eq { p: String::new(), v: Literal::Bool(false) });
    assert!(only(&f).satisfied_by(b"false", None));
    let n = leaf(PredicateIr::Eq { p: String::new(), v: Literal::Null });
    assert!(only(&n).satisfied_by(b"null", None));
    assert!(!only(&n).satisfied_by(b"nul", None));
    let odd = leaf(PredicateIr::Lte { p: String::new(), v: Literal::Bool(true) });
    assert!(!only(&odd).satisfied_by(b"true", None));
    let odd = leaf(PredicateIr::Gte { p: String::new(), v: Literal::Null });
    assert!(!only(&odd).satisfied_by(b"null", None));
}

#[test]
fn conjunctions_flatten_in_order() {
    let ir = PredicateIr::And {
        c: vec![
            PredicateIr::Exists { p: "/a/0".to_string() },
            PredicateIr::And { c: vec![] },
            PredicateIr::And {
                c: vec![
                    PredicateIr::Eq { p: "/b".to_string(), v: Literal::Null },
                    PredicateIr::Exists { p: String::new() },
                ],
            },
        ],
    };
    let p = leaf(ir);
    let pointers: Vec<Vec<String>> = p
        .leaves()
        .iter()
        .map(|l| l.pointer().tokens().to_vec())
        .collect();
    assert_eq!(
        pointers,
        vec![
            vec!["a".to_string(), "0".to_string()],
            vec!["b".to_string()],
            vec![],
        ]
    );
    assert!(!p.leaves()[0].needs_value());
    assert!(p.leaves()[0].satisfied_by(b"anything", None));
    assert!(p.leaves()[1].needs_value());
    assert_eq!(leaf(PredicateIr::And { c: vec![] }).leaves().len(), 0);
}

#[test]
fn predicate_errors() {
    let ir = PredicateIr::And {
        c: vec![
            PredicateIr::Exists { p: "/fine".to_string() },
            PredicateIr::Exists { p: "bad".to_string() },
            PredicateIr::Exists { p: "/~9".to_string() },
        ],
    };
    let e = CompiledPredicate::compile(&ir).err().unwrap();
    assert!(matches!(
        e,
        PredicateError::Pointer(PointerParseError::MissingLeadingSlash)
    ));
    assert_eq!(
        e.message(),
        "invalid predicate pointer: JSON pointer must be empty or start with '/'"
    );
    assert_eq!(
        PredicateError::Json("x".to_string()).message(),
        "invalid predicate JSON: x"
    );
}

#[test]
fn comparisons_go_together() {
    // Whether a value is less than, equal to or greater than a literal; at most and at
    // least are made of these.
    let tests = |v: &dyn Fn() -> Literal, raw: &[u8], rank: Option<Rank>| {
        let p = String::new;
        let ask = |ir: PredicateIr| only(&leaf(ir)).satisfied_by(raw, rank);
        let less = ask(PredicateIr::Lt { p: p(), v: v() });
        let equal = ask(PredicateIr::Eq { p: p(), v: v() });
        let greater = ask(PredicateIr::Gt { p: p(), v: v() });
        assert_eq!(ask(PredicateIr::Lte { p: p(), v: v() }), less || equal);
        assert_eq!(ask(PredicateIr::Gte { p: p(), v: v() }), greater || equal);
        [less, equal, greater]
    };
    let words = ["", "a", "ab", "b", "\u{e9}", "q\"q", "new\nline"];
    let raws: [&[u8]; 9] = [
        br#""""#,
        br#""a""#,
        br#""\u0061""#,
        br#""ab""#,
        br#""b""#,
        "\"\u{e9}\"".as_bytes(),
        br#""\u00e9""#,
        br#""q\"q""#,
        br#""new\nline""#,
    ];
    let spelled = ["", "a", "a", "ab", "b", "\u{e9}", "\u{e9}", "q\"q", "new\nline"];
    for word in words {
        for (raw, text_of) in raws.iter().zip(spelled) {
            let got = tests(&|| text(word), raw, None);
            let want = [text_of < word, text_of == word, text_of > word];
            assert_eq!(got, want, "{text_of} against {word}");
        }
    }
    let number = || Literal::Num(1.5f64.to_bits());
    for (rank, want) in [
        (Some(Rank::Less), [true, false, false]),
        (Some(Rank::Equal), [false, true, false]),
        (Some(Rank::Greater), [false, false, true]),
        (Some(Rank::Unordered), [false; 3]),
        (None, [false; 3]),
    ] {
        assert_eq!(tests(&number, b"2", rank), want);
    }
}

#[test]
fn strings_are_decoded() {
    assert_eq!(decode_string(br#""""#), Some(String::new()));
    assert_eq!(decode_string(br#""plain""#), Some("plain".to_string()));
    assert_eq!(decode_string(br#""a\"b\\c\n""#), Some("a\"b\\c\n".to_string()));
    assert_eq!(decode_string("\"\u{e9}\"".as_bytes()), Some("\u{e9}".to_string()));
    for raw in [&b""[..], b"1", b"plain", b"\"open", b"\"bad\\x\"", b"\"\xff\""] {
        assert_eq!(decode_string(raw), None);
    }
}

#[test]
fn a_pointer_in_writing_is_read_back() {
    let cases: [&[&str]; 7] = [
        &[],
        &[""],
        &["", "", ""],
        &["a/b", "m~n", "~1"],
        &["~", "/", "~/", "/~", "~~//"],
        &["foo", "0", "\u{e9}"],
        &["~0", "~1", ""],
    ];
    for case in cases {
        let text: String = case
            .iter()
            .map(|t| format!("/{}", t.replace('~', "~0").replace('/', "~1")))
            .collect();
        assert_eq!(tokens(&text), case.to_vec());
    }
}
