use weftc::ast::{Item, Module};
use weftc::effects::{effects_graph, Effect};
use weftc::lexer::{lex, TokKind};
use weftc::parser::parse;
use weftc::typer::typecheck;

fn kinds(src: &str) -> Vec<TokKind> {
    lex(src).into_iter().map(|t| t.kind).collect()
}

fn ident(s: &str) -> TokKind {
    TokKind::Ident(s.to_string())
}

fn actor_names(m: &Module) -> Vec<String> {
    m.items
        .iter()
        .map(|i| match i {
            Item::Actor { name } => format!("actor {}", name),
            Item::Func { name } => format!("fn {}", name),
        })
        .collect()
}

#[test]
fn lex_parse_module_and_effects() {
    let src = r#"
        module textile.ingest
        effects Serial, Net
        actor Ingest { fn run() { } }
    "#;
    let toks = lex(src);
    let m = parse(&toks).expect("parse ok");
    assert_eq!(m.name, "textile.ingest");
    assert!(m.effects.len() == 2);
    assert!(m.items.len() >= 1);
}

#[test]
fn end_to_end_pipeline() {
    let src = "module textile.ingest\neffects Serial, Net\nactor Ingest { fn run() { } }";
    let toks = lex(src);
    assert_eq!(toks.last().unwrap().kind, TokKind::Eof);
    assert_eq!(toks.iter().filter(|t| t.kind == TokKind::Eof).count(), 1);
    let m = parse(&toks).expect("parse ok");
    assert_eq!(m.name, "textile.ingest");
    assert_eq!(m.effects, vec![Effect::Serial, Effect::Net]);
    assert_eq!(m.items.len(), 1);
    assert_eq!(actor_names(&m), vec!["actor Ingest".to_string()]);
    assert!(typecheck(&m).is_ok());
    let g = effects_graph(&m);
    assert_eq!(
        g,
        vec![
            ("textile.ingest".to_string(), Effect::Serial),
            ("textile.ingest".to_string(), Effect::Net)
        ]
    );
}

#[test]
fn graph_of_built_module() {
    let mut m = Module::new("textile.ingest".to_string());
    m.effects.push(Effect::Serial);
    m.effects.push(Effect::Net);
    let g = effects_graph(&m);
    assert_eq!(
        g,
        vec![
            ("textile.ingest".to_string(), Effect::Serial),
            ("textile.ingest".to_string(), Effect::Net)
        ]
    );
}

#[test]
fn graph_keeps_repeats_and_empty() {
    let mut m = Module::new("a".to_string());
    assert!(effects_graph(&m).is_empty());
    m.effects.push(Effect::Db);
    m.effects.push(Effect::Db);
    assert_eq!(
        effects_graph(&m),
        vec![("a".to_string(), Effect::Db), ("a".to_string(), Effect::Db)]
    );
}

#[test]
fn dotted_name_regardless_of_rest() {
    let m = parse(&lex("module A.B.C")).unwrap();
    assert_eq!(m.name, "A.B.C");
    let m = parse(&lex("module A.B.C effects Db ; 12 \"x\" fn f")).unwrap();
    assert_eq!(m.name, "A.B.C");
    let m = parse(&lex("module A.B.C\nactor X { { } }")).unwrap();
    assert_eq!(m.name, "A.B.C");
}

#[test]
fn effects_in_declared_order_with_repeats() {
    let m = parse(&lex("module m effects Kms, Db, Now")).unwrap();
    assert_eq!(m.effects, vec![Effect::Kms, Effect::Db, Effect::Now]);
    let m = parse(&lex("module m effects Net, Net")).unwrap();
    assert_eq!(m.effects, vec![Effect::Net, Effect::Net]);
    let m = parse(&lex("module m")).unwrap();
    assert!(m.effects.is_empty());
}

#[test]
fn unknown_effect_positioned_at_name() {
    let e = parse(&lex("module m\neffects Db,  Bogus")).unwrap_err();
    assert_eq!(e.msg, "unknown effect 'Bogus'");
    assert_eq!((e.line, e.col), (2, 14));
    let e = parse(&lex("module m effects Bogus")).unwrap_err();
    assert_eq!((e.line, e.col), (1, 18));
}

#[test]
fn actor_block_contents_skipped() {
    let m = parse(&lex("module m actor A { fn inner() { { x } } actor B { } } fn f(a: b) -> c { }"))
        .unwrap();
    assert_eq!(
        actor_names(&m),
        vec!["actor A".to_string(), "fn f".to_string()]
    );
}

#[test]
fn unterminated_actor_block() {
    let e = parse(&lex("module m\nactor A { { }")).unwrap_err();
    assert_eq!(e.msg, "unterminated block");
    assert_eq!((e.line, e.col), (2, 14));
    let e = parse(&lex("module m actor A")).unwrap_err();
    assert_eq!(e.msg, "unterminated block");
}

#[test]
fn header_errors() {
    let e = parse(&[]).unwrap_err();
    assert_eq!((e.msg.as_str(), e.line, e.col), ("expected module", 0, 0));
    let e = parse(&lex("  actor")).unwrap_err();
    assert_eq!((e.msg.as_str(), e.line, e.col), ("expected module", 1, 3));
    let e = parse(&lex("module 42")).unwrap_err();
    assert_eq!((e.msg.as_str(), e.line, e.col), ("expected module ident", 1, 8));
    let e = parse(&lex("module a.")).unwrap_err();
    assert_eq!((e.msg.as_str(), e.line, e.col), ("expected ident after dot", 1, 10));
    let e = parse(&lex("module a effects ,")).unwrap_err();
    assert_eq!((e.msg.as_str(), e.line, e.col), ("expected effect ident", 1, 18));
    let e = parse(&lex("module a actor {")).unwrap_err();
    assert_eq!((e.msg.as_str(), e.line, e.col), ("expected actor name", 1, 16));
    let e = parse(&lex("module a fn (")).unwrap_err();
    assert_eq!((e.msg.as_str(), e.line, e.col), ("expected fn name", 1, 13));
}

#[test]
fn top_level_leniency() {
    let m = parse(&lex("module a ; = 7 effects Db fn g")).unwrap();
    assert!(m.effects.is_empty());
    assert_eq!(actor_names(&m), vec!["fn g".to_string()]);
}

#[test]
fn lexer_positions_and_kinds() {
    let toks = lex("module a.b\n  // note { \n(x): 12;->= \"s t\"");
    let got: Vec<(TokKind, usize, usize)> = toks.into_iter().map(|t| (t.kind, t.line, t.col)).collect();
    assert_eq!(
        got,
        vec![
            (TokKind::Module, 1, 1),
            (ident("a"), 1, 8),
            (TokKind::Dot, 1, 9),
            (ident("b"), 1, 10),
            (TokKind::LParen, 3, 1),
            (ident("x"), 3, 2),
            (TokKind::RParen, 3, 3),
            (TokKind::Colon, 3, 4),
            (TokKind::Number("12".to_string()), 3, 6),
            (TokKind::Semicolon, 3, 8),
            (TokKind::Arrow, 3, 9),
            (TokKind::Eq, 3, 11),
            (TokKind::String("s t".to_string()), 3, 13),
            (TokKind::Eof, 3, 18),
        ]
    );
}

#[test]
fn lexer_keywords_and_leniency() {
    assert_eq!(
        kinds("effects actor fn modules _x1 {}, - / @"),
        vec![
            TokKind::Effects,
            TokKind::Actor,
            TokKind::Fn,
            ident("modules"),
            ident("_x1"),
            TokKind::LBrace,
            TokKind::RBrace,
            TokKind::Comma,
            TokKind::Eof,
        ]
    );
    assert_eq!(kinds(""), vec![TokKind::Eof]);
    let toks = lex("\"a\nb");
    assert_eq!(toks[0].kind, TokKind::String("a\nb".to_string()));
    assert_eq!((toks[1].line, toks[1].col), (2, 3));
}

#[test]
fn typecheck_name_rule() {
    assert!(typecheck(&Module::new("x".to_string())).is_ok());
    let e = typecheck(&Module::new(String::new())).unwrap_err();
    assert_eq!(e.0, "empty module name");
}

#[test]
fn effect_names() {
    assert_eq!(Effect::from_ident("Db"), Some(Effect::Db));
    assert_eq!(Effect::from_ident("Net"), Some(Effect::Net));
    assert_eq!(Effect::from_ident("Now"), Some(Effect::Now));
    assert_eq!(Effect::from_ident("Kms"), Some(Effect::Kms));
    assert_eq!(Effect::from_ident("Serial"), Some(Effect::Serial));
    assert_eq!(Effect::from_ident("serial"), None);
    assert_eq!(Effect::from_ident(""), None);
}

#[test]
fn parse_error_message_text() {
    let e = parse(&lex("module m\neffects Db,  Bogus")).unwrap_err();
    assert_eq!(e.message(), "unknown effect 'Bogus' at 2:14");
    let e = parse(&[]).unwrap_err();
    assert_eq!(e.message(), "expected module at 0:0");
    let src = format!("{}module 7", "\n".repeat(120));
    let e = parse(&lex(&src)).unwrap_err();
    assert_eq!(e.message(), "expected module ident at 121:8");
}

#[test]
fn string_literal_keeps_utf8_text() {
    let toks = lex("\"é ü\" x");
    assert_eq!(toks[0].kind, TokKind::String("é ü".to_string()));
    assert_eq!((toks[1].line, toks[1].col), (1, 9));
    assert_eq!(toks[1].kind, ident("x"));
    let toks = lex("\"日本");
    assert_eq!(toks[0].kind, TokKind::String("日本".to_string()));
    assert_eq!(toks[1].kind, TokKind::Eof);
}

#[test]
fn effects_line_from_source_text() {
    let m = parse(&lex("module m\neffects Kms, Db, Kms")).unwrap();
    assert_eq!(m.name, "m");
    assert_eq!(m.effects, vec![Effect::Kms, Effect::Db, Effect::Kms]);
    assert!(m.items.is_empty());
    let e = parse(&lex("module m\nactor Name {fn f() {")).unwrap_err();
    assert_eq!(e.message(), "unterminated block at 2:21");
}
