use evs_delta::budget::edit_within_budget;
use evs_delta::buffer::TextBuffer;
use evs_delta::delta::{apply_delta_mut, Delta};
use evs_delta::diagnostics::diagnostics_full;
use evs_delta::error::Error;
use evs_delta::lexer::{lex_full, lex_incremental, TokenKind};
use evs_delta::parser::{parse_full, parse_incremental};
use evs_delta::pipeline::LanguagePipeline;
use evs_delta::symbols::symbols_full;

#[test]
fn incremental_matches_full() {
    let mut buf = TextBuffer::new("hello world");
    let d = Delta::replace(6, 11, "delta");
    let (full, _) = TextBuffer::apply_full(&buf.text, &d).unwrap();
    buf.apply(&d).unwrap();
    assert_eq!(buf.text, full);
}

#[test]
fn flags_undefined() {
    let ts = lex_full("let x = y;");
    let ast = parse_full(&ts);
    let sym = symbols_full(&ast);
    let d = diagnostics_full(&ast, &sym);
    assert!(d.items.iter().any(|i| i.key.starts_with("undef:")));
}

#[test]
fn lexes_lets() {
    let ts = lex_full("let foo = 10;");
    let kinds: Vec<_> = ts.tokens.iter().map(|t| t.kind.clone()).collect();
    assert_eq!(
        kinds,
        vec![
            TokenKind::Let,
            TokenKind::Ident,
            TokenKind::Eq,
            TokenKind::Number,
            TokenKind::Semi
        ]
    );
}

#[test]
fn incremental_rename_matches_full() {
    let src = "let foo = 10;\nlet bar = 20;\n";
    let prev = lex_full(src);
    let delta = Delta::insert(7, "bar"); // foo becomes foobar
    let mut text = src.to_string();
    apply_delta_mut(&mut text, &delta).unwrap();
    let inc = lex_incremental(&text, &prev, &delta).unwrap();
    let full = lex_full(&text);
    assert!(inc.semantic_eq(&full), "{inc:?} vs {full:?}");
    assert!(inc.work.items_reused > 0);
}

#[test]
fn parse_lets() {
    let ts = lex_full("let foo = 10; let bar = foo + 1;");
    let p = parse_full(&ts);
    assert_eq!(p.stmts.len(), 2);
    assert!(p.errors.is_empty());
}

#[test]
fn incremental_reuses_untouched_stmt() {
    let src = "let foo = 10;\nlet bar = 20;\nlet baz = 30;\n";
    let tokens0 = lex_full(src);
    let ast0 = parse_full(&tokens0);
    let delta = Delta::replace(src.find("20").unwrap(), src.find("20").unwrap() + 2, "99");
    let mut text = src.to_string();
    apply_delta_mut(&mut text, &delta).unwrap();
    let tokens1 = lex_incremental(&text, &tokens0, &delta).unwrap();
    let ast1 = parse_incremental(&tokens1, &ast0).unwrap();
    let ast_full = parse_full(&tokens1);
    assert!(ast1.semantic_eq(&ast_full));
    assert!(ast1.work.items_reused > 0);
}

#[test]
fn incremental_matches_full_oracle() {
    let src = "let foo = 10;\nlet bar = 20;\nlet baz = foo + bar;\n";
    let mut inc = LanguagePipeline::from_text(src);
    let mut full = LanguagePipeline::from_text(src);
    let delta = Delta::insert(src.find("foo =").unwrap() + 1, "x");
    inc.apply_incremental(&delta).unwrap();
    full.apply_full(&delta).unwrap();
    assert_eq!(inc.source, full.source);
    assert!(inc.tokens.semantic_eq(&full.tokens));
    assert!(inc.program.semantic_eq(&full.program));
    assert!(inc.symbols.semantic_eq(&full.symbols));
    assert!(inc.diagnostics.semantic_eq(&full.diagnostics));
}

#[test]
fn tracks_def_and_refs() {
    let ts = lex_full("fn foo() {}\nfoo();\nfoo();\nfoo();\n");
    let ast = parse_full(&ts);
    let sym = symbols_full(&ast);
    assert!(sym.defs.contains_key("foo"));
    assert_eq!(sym.refs.len(), 3);
    assert!(sym.refs.iter().all(|r| r.def.is_some()));
}

#[test]
fn lexes_every_kind() {
    let ts = lex_full("fn f() { let a = 1 + 2 - 3; } @");
    let kinds: Vec<TokenKind> = ts.tokens.iter().map(|t| t.kind).collect();
    assert_eq!(
        kinds,
        vec![
            TokenKind::Fn,
            TokenKind::Ident,
            TokenKind::LParen,
            TokenKind::RParen,
            TokenKind::LBrace,
            TokenKind::Let,
            TokenKind::Ident,
            TokenKind::Eq,
            TokenKind::Number,
            TokenKind::Plus,
            TokenKind::Number,
            TokenKind::Minus,
            TokenKind::Number,
            TokenKind::Semi,
            TokenKind::RBrace,
            TokenKind::Unknown,
        ]
    );
    assert_eq!(ts.tokens[1].lexeme, "f");
    assert_eq!(ts.tokens[1].start, 3);
    assert_eq!(ts.tokens[1].end, 4);
}

#[test]
fn parse_reports_errors() {
    let p = parse_full(&lex_full("let = 1;"));
    assert!(!p.errors.is_empty());
}

#[test]
fn unused_and_undefined_diagnostics() {
    let ts = lex_full("let x = 1;\nlet y = z;\n");
    let ast = parse_full(&ts);
    let sym = symbols_full(&ast);
    let d = diagnostics_full(&ast, &sym);
    let keys: Vec<&str> = d.items.iter().map(|i| i.key.as_str()).collect();
    assert!(keys.iter().any(|k| k.starts_with("undef:")));
    assert!(keys.iter().any(|k| k.starts_with("unused:")));
}

#[test]
fn pipeline_incremental_equals_full_over_several_edits() {
    let src = "fn foo() {}\nfoo();\nlet a = 1;\nlet b = a + 2;\n";
    let mut inc = LanguagePipeline::from_text(src);
    let mut full = LanguagePipeline::from_text(src);
    let edits = vec![
        Delta::replace(3, 6, "bar"),
        Delta::insert(0, "let q = 5;\n"),
        Delta::delete(0, 11),
        Delta::insert(src.len(), "let c = b;\n"),
    ];
    for d in &edits {
        inc.apply_incremental(d).unwrap();
        full.apply_full(d).unwrap();
        assert_eq!(inc.source, full.source);
        assert!(inc.tokens.semantic_eq(&full.tokens));
        assert!(inc.program.semantic_eq(&full.program));
        assert!(inc.symbols.semantic_eq(&full.symbols));
        assert!(inc.diagnostics.semantic_eq(&full.diagnostics));
    }
}

#[test]
fn pipeline_rejects_bad_edit_and_keeps_source() {
    let mut p = LanguagePipeline::from_text("let a = 1;");
    let err = p.apply_incremental(&Delta::insert(99, "x")).unwrap_err();
    assert!(matches!(err, Error::InvalidDelta(_)));
    assert_eq!(p.source, "let a = 1;");
}

#[test]
fn pipeline_snapshot_counts() {
    let mut p = LanguagePipeline::from_text("let a = 1;\n");
    let snap = p.apply_full(&Delta::insert(11, "let b = a;\n")).unwrap();
    assert_eq!(snap.mode, "full");
    assert_eq!(snap.inserted_chars, 11);
    assert_eq!(snap.deleted_chars, 0);
    assert_eq!(snap.source_len, 22);
    assert_eq!(snap.tokens_total, 10);
    assert_eq!(snap.diagnostics_after, p.diagnostics.items.len());
}

#[test]
fn pipeline_takes_plain_edits_only() {
    let p = LanguagePipeline::from_text("let a = 1;");
    assert!(p.takes(&Delta::insert(3, "b")));
    assert!(p.takes(&Delta::composite(vec![Delta::insert(0, "x"), Delta::delete(0, 1)])));
    assert!(!p.takes(&Delta::insert(3, "é")));
    assert!(Delta::delete(0, 3).is_plain());
    assert!(!Delta::replace(0, 1, "ü").is_plain());
}

#[test]
fn edit_budget_bounds_counters() {
    assert!(edit_within_budget("hello", &Delta::insert(5, "!")));
    assert!(edit_within_budget("", &Delta::composite(vec![])));
    let big = Delta::composite(vec![Delta::insert(0, "ab"), Delta::insert(0, "cd")]);
    assert!(edit_within_budget("xyz", &big));
}

#[test]
fn out_of_range_edit_reports_apply_error() {
    let mut p = LanguagePipeline::from_text("let a = 1;");
    let d = Delta::delete(0, usize::MAX);
    assert!(p.takes(&d));
    assert!(matches!(p.apply_full(&d), Err(Error::InvalidDelta(_))));
    assert_eq!(p.source, "let a = 1;");
    assert!(matches!(p.apply_incremental(&d), Err(Error::InvalidDelta(_))));
    assert_eq!(p.source, "let a = 1;");
}
