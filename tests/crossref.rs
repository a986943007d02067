use mozsearch::index::{
    build_index, AnalysisDatum, AnalysisKind, BadLine, CrossrefIndex, FileInput, FileOutcome,
};
use mozsearch::snippet::snippet;

fn datum(lineno: u32, kind: AnalysisKind, sym: &str, pretty: &str) -> AnalysisDatum {
    AnalysisDatum { lineno, col: 0, kind, sym: sym.to_string(), pretty: pretty.to_string() }
}

fn lines(v: &[&str]) -> Vec<String> {
    v.iter().map(|s| s.to_string()).collect()
}

fn foo_source() -> Vec<String> {
    let mut v = Vec::new();
    for i in 1..10 {
        v.push(format!("// line {}", i));
    }
    v.push("class Foo {".to_string());
    v.push("};".to_string());
    v
}

#[test]
fn snippet_trims_surrounding_whitespace() {
    assert_eq!(snippet("  \tclass Foo {  \r"), "class Foo {");
    assert_eq!(snippet("x"), "x");
    assert_eq!(snippet("   "), "");
}

#[test]
fn snippet_cuts_long_lines_to_one_hundred_chars() {
    let long = format!("   {}   ", "a".repeat(150));
    assert_eq!(snippet(&long), "a".repeat(100));
    let exact = "b".repeat(100);
    assert_eq!(snippet(&exact), exact);
}

#[test]
fn snippet_counts_characters_not_bytes() {
    let long: String = "é".repeat(120);
    let r = snippet(&long);
    assert_eq!(r.chars().count(), 100);
    assert_eq!(r, "é".repeat(100));
}

#[test]
fn end_to_end_single_definition() {
    let mut idx = CrossrefIndex::new();
    let data = vec![datum(10, AnalysisKind::Def, "ns::Foo", "class Foo")];
    assert_eq!(idx.add_file("foo.cpp", &data, &foo_source()), Ok(()));
    assert_eq!(
        idx.crossref_text(),
        "ns::Foo\n{\"Definitions\":[{\"lines\":[{\"line\":\"class Foo {\",\"lno\":10}],\"path\":\"foo.cpp\"}]}\n"
    );
    assert_eq!(idx.jumps_text(), "[\"ns::Foo\",\"foo.cpp\",10,\"class Foo\"]\n");
}

#[test]
fn two_definitions_in_one_file_give_no_jump() {
    let mut idx = CrossrefIndex::new();
    let data = vec![
        datum(1, AnalysisKind::Def, "f", "f()"),
        datum(2, AnalysisKind::Def, "f", "f()"),
    ];
    assert_eq!(idx.add_file("a.cpp", &data, &lines(&["void f();", "void f() {}"])), Ok(()));
    assert_eq!(idx.jumps_text(), "");
}

#[test]
fn definitions_in_two_files_give_no_jump() {
    let mut idx = CrossrefIndex::new();
    let d = vec![datum(1, AnalysisKind::Def, "f", "f()")];
    idx.add_file("a.cpp", &d, &lines(&["void f() {}"])).unwrap();
    idx.add_file("b.cpp", &d, &lines(&["void f() {}"])).unwrap();
    assert_eq!(idx.jumps_text(), "");
    assert_eq!(
        idx.crossref_text(),
        "f\n{\"Definitions\":[{\"lines\":[{\"line\":\"void f() {}\",\"lno\":1}],\"path\":\"a.cpp\"},{\"lines\":[{\"line\":\"void f() {}\",\"lno\":1}],\"path\":\"b.cpp\"}]}\n"
    );
}

#[test]
fn symbol_without_definition_has_no_jump() {
    let mut idx = CrossrefIndex::new();
    let d = vec![datum(1, AnalysisKind::Use, "g", "g()")];
    idx.add_file("a.cpp", &d, &lines(&["g();"])).unwrap();
    assert_eq!(idx.jumps_text(), "");
    assert_eq!(
        idx.crossref_text(),
        "g\n{\"Uses\":[{\"lines\":[{\"line\":\"g();\",\"lno\":1}],\"path\":\"a.cpp\"}]}\n"
    );
}

#[test]
fn unique_definition_among_uses_jumps_to_its_line() {
    let mut idx = CrossrefIndex::new();
    let d = vec![
        datum(3, AnalysisKind::Use, "h", "h()"),
        datum(1, AnalysisKind::Def, "h", "h()"),
        datum(2, AnalysisKind::Decl, "h", "h()"),
    ];
    idx.add_file("h.cpp", &d, &lines(&["int h() {", "int h();", "  h();"])).unwrap();
    assert_eq!(idx.jumps_text(), "[\"h\",\"h.cpp\",1,\"h()\"]\n");
    assert_eq!(
        idx.crossref_text(),
        "h\n{\"Declarations\":[{\"lines\":[{\"line\":\"int h();\",\"lno\":2}],\"path\":\"h.cpp\"}],\"Definitions\":[{\"lines\":[{\"line\":\"int h() {\",\"lno\":1}],\"path\":\"h.cpp\"}],\"Uses\":[{\"lines\":[{\"line\":\"h();\",\"lno\":3}],\"path\":\"h.cpp\"}]}\n"
    );
}

#[test]
fn all_kinds_are_named_in_key_order() {
    let mut idx = CrossrefIndex::new();
    let d = vec![
        datum(1, AnalysisKind::Use, "s", "s"),
        datum(1, AnalysisKind::Idl, "s", "s"),
        datum(1, AnalysisKind::Assign, "s", "s"),
    ];
    idx.add_file("k.idl", &d, &lines(&["s"])).unwrap();
    let text = idx.crossref_text();
    let a = text.find("\"Assignments\"").unwrap();
    let i = text.find("\"IDL\"").unwrap();
    let u = text.find("\"Uses\"").unwrap();
    assert!(a < i && i < u);
}

#[test]
fn results_keep_discovery_order() {
    let mut idx = CrossrefIndex::new();
    let d = vec![datum(2, AnalysisKind::Use, "u", "u"), datum(1, AnalysisKind::Use, "u", "u")];
    idx.add_file("u.c", &d, &lines(&["one", "two"])).unwrap();
    assert_eq!(
        idx.crossref_text(),
        "u\n{\"Uses\":[{\"lines\":[{\"line\":\"two\",\"lno\":2},{\"line\":\"one\",\"lno\":1}],\"path\":\"u.c\"}]}\n"
    );
}

#[test]
fn pretty_name_last_writer_wins() {
    let mut idx = CrossrefIndex::new();
    idx.add_file("a.cpp", &vec![datum(1, AnalysisKind::Use, "p", "old name")], &lines(&["p"]))
        .unwrap();
    idx.add_file("b.cpp", &vec![datum(1, AnalysisKind::Def, "p", "new name")], &lines(&["p"]))
        .unwrap();
    assert_eq!(idx.jumps_text(), "[\"p\",\"b.cpp\",1,\"new name\"]\n");
}

#[test]
fn snippets_are_json_escaped() {
    let mut idx = CrossrefIndex::new();
    let d = vec![datum(1, AnalysisKind::Def, "q", "say \"hi\"")];
    idx.add_file("q.c", &d, &lines(&["puts(\"a\\b\");"])).unwrap();
    assert_eq!(
        idx.crossref_text(),
        "q\n{\"Definitions\":[{\"lines\":[{\"line\":\"puts(\\\"a\\\\b\\\");\",\"lno\":1}],\"path\":\"q.c\"}]}\n"
    );
    assert_eq!(idx.jumps_text(), "[\"q\",\"q.c\",1,\"say \\\"hi\\\"\"]\n");
}

#[test]
fn bad_line_stops_only_that_file() {
    let mut idx = CrossrefIndex::new();
    let d = vec![
        datum(1, AnalysisKind::Use, "a", "a"),
        datum(5, AnalysisKind::Use, "b", "b"),
        datum(1, AnalysisKind::Use, "c", "c"),
    ];
    let r = idx.add_file("x.c", &d, &lines(&["a b c"]));
    assert_eq!(r, Err(BadLine { index: 1, lineno: 5 }));
    assert_eq!(idx.len(), 1);
    assert_eq!(
        idx.crossref_text(),
        "a\n{\"Uses\":[{\"lines\":[{\"line\":\"a b c\",\"lno\":1}],\"path\":\"x.c\"}]}\n"
    );
    let d2 = vec![datum(1, AnalysisKind::Use, "z", "z")];
    assert_eq!(idx.add_file("y.c", &d2, &lines(&["z"])), Ok(()));
    assert_eq!(idx.len(), 2);
}

#[test]
fn line_number_zero_is_a_bad_line() {
    let mut idx = CrossrefIndex::new();
    let d = vec![datum(0, AnalysisKind::Use, "a", "a")];
    assert_eq!(idx.add_file("x.c", &d, &lines(&["a"])), Err(BadLine { index: 0, lineno: 0 }));
    assert_eq!(idx.len(), 0);
}

#[test]
fn unreadable_source_is_skipped_and_run_goes_on() {
    let inputs = vec![
        FileInput {
            path: "broken.cpp".to_string(),
            analysis: Some(vec![datum(1, AnalysisKind::Def, "broken", "broken")]),
            lines: None,
        },
        FileInput {
            path: "foo.cpp".to_string(),
            analysis: Some(vec![datum(10, AnalysisKind::Def, "ns::Foo", "class Foo")]),
            lines: Some(foo_source()),
        },
    ];
    let (idx, outcomes) = build_index(&inputs);
    assert_eq!(outcomes, vec![FileOutcome::MissingSource, FileOutcome::Indexed]);
    assert_eq!(idx.len(), 1);
    assert!(!idx.crossref_text().contains("broken"));
    assert_eq!(idx.jumps_text(), "[\"ns::Foo\",\"foo.cpp\",10,\"class Foo\"]\n");
}

#[test]
fn missing_analysis_is_skipped() {
    let inputs = vec![FileInput { path: "n.c".to_string(), analysis: None, lines: Some(lines(&["x"])) }];
    let (idx, outcomes) = build_index(&inputs);
    assert_eq!(outcomes, vec![FileOutcome::MissingAnalysis]);
    assert_eq!(idx.len(), 0);
    assert_eq!(idx.crossref_text(), "");
}

fn sample_inputs() -> Vec<FileInput> {
    vec![
        FileInput {
            path: "a.cpp".to_string(),
            analysis: Some(vec![
                datum(1, AnalysisKind::Def, "A", "struct A"),
                datum(2, AnalysisKind::Use, "B", "B"),
            ]),
            lines: Some(lines(&["struct A {", "  B b;", "};"])),
        },
        FileInput {
            path: "b.cpp".to_string(),
            analysis: Some(vec![datum(1, AnalysisKind::Def, "B", "struct B")]),
            lines: Some(lines(&["struct B {};"])),
        },
    ]
}

#[test]
fn rebuilding_gives_identical_files() {
    let (x, _) = build_index(&sample_inputs());
    let (y, _) = build_index(&sample_inputs());
    assert_eq!(x.crossref_text(), y.crossref_text());
    assert_eq!(x.jumps_text(), y.jumps_text());
    assert_eq!(x.jumps_text(), "[\"A\",\"a.cpp\",1,\"struct A\"]\n[\"B\",\"b.cpp\",1,\"struct B\"]\n");
}

#[test]
fn bad_line_is_reported_per_file() {
    let inputs = vec![
        FileInput {
            path: "short.c".to_string(),
            analysis: Some(vec![datum(1, AnalysisKind::Use, "k", "k"), datum(9, AnalysisKind::Use, "k", "k")]),
            lines: Some(lines(&["k;"])),
        },
        FileInput {
            path: "ok.c".to_string(),
            analysis: Some(vec![datum(1, AnalysisKind::Def, "k", "int k")]),
            lines: Some(lines(&["int k;"])),
        },
    ];
    let (idx, outcomes) = build_index(&inputs);
    assert_eq!(
        outcomes,
        vec![FileOutcome::BadLine(BadLine { index: 1, lineno: 9 }), FileOutcome::Indexed]
    );
    assert_eq!(idx.len(), 2);
    assert_eq!(idx.jumps_text(), "[\"k\",\"ok.c\",1,\"int k\"]\n");
}
