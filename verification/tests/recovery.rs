use ore_compiler::recovery::{lex, render, Parser, Recovery, Stmt, T};

const SRC: &str = "let a = 1 + ;\nlet 5 = x * 2;\nlet c = (a + 3;\nlet e = 2 3 4 5;\nlet d = a + c;";

fn shape(stmts: &[Stmt]) -> Vec<String> {
    stmts
        .iter()
        .map(|s| match s {
            Stmt::Let(n, e) => format!("(let {n} {e})"),
            Stmt::Expr(e) => format!("(expr {e})"),
            Stmt::Error => "<error>".to_string(),
        })
        .collect()
}

#[test]
fn lexing_ends_with_eof() {
    let toks = lex("let x1 = 42;").unwrap();
    assert_eq!(toks.len(), 6);
    assert!(matches!(toks[0].t, T::Let));
    assert!(matches!(&toks[1].t, T::Name(n) if n == "x1"));
    assert!(matches!(toks[3].t, T::Num(42)));
    assert!(matches!(toks[5].t, T::Eof));
    assert_eq!((toks[5].lo, toks[5].hi), (12, 12));
    assert!(lex("99999999999999999999").is_none());
}

#[test]
fn synchronizing_recovery() {
    let mut p = Parser::new(lex(SRC).unwrap(), Recovery::Synchronize);
    let stmts = p.program();
    assert_eq!(shape(&stmts), vec!["<error>", "<error>", "<error>", "<error>", "(let d (+ a c))"]);
    let msgs: Vec<&str> = p.diags.iter().map(|d| d.msg.as_str()).collect();
    assert_eq!(msgs, vec![
        "expected an expression, found `;`",
        "expected a name after `let`, found `5`",
        "expected `)`, found `;`",
        "expected `;`, found `3`",
    ]);
    assert_eq!(
        render(SRC, &p.diags[0]),
        "error: expected an expression, found `;`\n --> line 1, col 13\n  |\n1 | let a = 1 + ;\n  |             ^"
    );
    assert_eq!(
        render(SRC, &p.diags[1]),
        "error: expected a name after `let`, found `5`\n --> line 2, col 5\n  |\n2 | let 5 = x * 2;\n  |     ^"
    );
}

#[test]
fn skipping_one_token_invents_statements() {
    let mut p = Parser::new(lex(SRC).unwrap(), Recovery::SkipOneToken);
    let stmts = p.program();
    assert_eq!(stmts.len(), 9);
    assert_eq!(p.diags.len(), 7);
    assert_eq!(shape(&stmts)[3], "(expr (* x 2))");
    assert_eq!(shape(&stmts)[8], "(let d (+ a c))");
}

#[test]
fn expressions_in_prefix_form() {
    let mut p = Parser::new(lex("(1 + 2) * x - 3").unwrap(), Recovery::Synchronize);
    assert_eq!(p.expr().ok(), Some("(- (* (+ 1 2) x) 3)".to_string()));
    let mut p = Parser::new(lex("").unwrap(), Recovery::Synchronize);
    assert_eq!(p.expr().err().map(|d| d.msg), Some("expected an expression, found end of input".to_string()));
}
