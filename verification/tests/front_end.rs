use grotsky::expr::Expr;
use grotsky::lexer::{keywords, Lexer};
use grotsky::parser::Parser;
use grotsky::pipeline::parse_source_code;
use grotsky::state::InterpreterState;
use grotsky::stmt::Stmt;
use grotsky::token::{Literal, Token};

fn lex(source: &str) -> (bool, InterpreterState) {
    let mut lexer = Lexer::new(InterpreterState::new(source.to_string()));
    let ok = lexer.scan();
    (ok, lexer.state)
}

fn kinds(state: &InterpreterState) -> Vec<Token> {
    state.tokens.iter().map(|t| t.token).collect()
}

fn parse(source: &str) -> (Result<(), ()>, InterpreterState) {
    let (ok, state) = lex(source);
    assert!(ok);
    let mut parser = Parser::new(state);
    let r = parser.parse();
    (r, parser.state)
}

#[test]
fn keywords_map_words_to_tokens() {
    let k = keywords();
    assert_eq!(k.len(), 22);
    assert!(k.iter().any(|(w, t)| w == b"let" && *t == Token::Let));
    assert!(k.iter().any(|(w, t)| w == b"elif" && *t == Token::Elif));
    assert!(k.iter().any(|(w, t)| w == b"catch" && *t == Token::Catch));
}

#[test]
fn scan_let_statement() {
    let (ok, state) = lex("let a = 1\n");
    assert!(ok);
    assert!(state.errors.is_empty());
    assert_eq!(
        kinds(&state),
        vec![Token::Let, Token::Identifier, Token::Equal, Token::Number, Token::Newline, Token::EOF]
    );
    assert_eq!(state.tokens[1].lexeme, "a");
    assert_eq!(state.tokens[3].literal, Some(Literal::Number("1".to_string())));
}

#[test]
fn scan_adds_final_newline() {
    let (ok, state) = lex("x");
    assert!(ok);
    assert_eq!(kinds(&state), vec![Token::Identifier, Token::Newline, Token::EOF]);
}

#[test]
fn scan_operators_and_comments() {
    let (ok, state) = lex("a <= b != c # comment\n");
    assert!(ok);
    assert_eq!(
        kinds(&state),
        vec![
            Token::Identifier,
            Token::LessEqual,
            Token::Identifier,
            Token::BangEqual,
            Token::Identifier,
            Token::Newline,
            Token::EOF
        ]
    );
}

#[test]
fn scan_string_with_escapes() {
    let (ok, state) = lex("\"a\\nb\"\n");
    assert!(ok);
    assert_eq!(state.tokens[0].token, Token::String);
    assert_eq!(state.tokens[0].literal, Some(Literal::String("a\nb".to_string())));
}

#[test]
fn scan_number_with_fraction() {
    let (ok, state) = lex("3.25\n");
    assert!(ok);
    assert_eq!(state.tokens[0].literal, Some(Literal::Number("3.25".to_string())));
}

#[test]
fn scan_unterminated_string_is_an_error() {
    let (ok, state) = lex("\"abc");
    assert!(ok);
    assert_eq!(state.errors.len(), 1);
    assert_eq!(state.errors[0].message, "Closing \" was expected");
}

#[test]
fn scan_illegal_character_is_an_error() {
    let (ok, state) = lex("a $ b\n");
    assert!(ok);
    assert_eq!(state.errors.len(), 1);
    assert_eq!(state.errors[0].message, "Illegal character");
}

#[test]
fn scan_stops_on_fraction_at_end_of_source() {
    let (ok, _) = lex("1.5");
    assert!(!ok);
}

#[test]
fn parse_let_statement() {
    let (r, state) = parse("let a = 1\n");
    assert_eq!(r, Ok(()));
    assert!(state.errors.is_empty());
    assert_eq!(state.stmts.len(), 1);
    match &state.stmts[0] {
        Stmt::Let(l) => {
            assert_eq!(l.name.lexeme, "a");
            match &l.initializer {
                Some(Expr::Literal(lit)) => assert_eq!(lit.value, Literal::Number("1".to_string())),
                other => panic!("unexpected initializer {:?}", other),
            }
        }
        other => panic!("unexpected statement {:?}", other),
    }
}

#[test]
fn parse_respects_precedence() {
    let (r, state) = parse("1 + 2 * 3\n");
    assert_eq!(r, Ok(()));
    match &state.stmts[0] {
        Stmt::Expr(e) => match &e.expression {
            Expr::Binary(b) => {
                assert_eq!(b.operator.token, Token::Plus);
                match &*b.right {
                    Expr::Binary(m) => assert_eq!(m.operator.token, Token::Star),
                    other => panic!("unexpected right operand {:?}", other),
                }
            }
            other => panic!("unexpected expression {:?}", other),
        },
        other => panic!("unexpected statement {:?}", other),
    }
}

#[test]
fn parse_assignment_to_element() {
    let (r, state) = parse("a[1] = 2\n");
    assert_eq!(r, Ok(()));
    match &state.stmts[0] {
        Stmt::Expr(e) => match &e.expression {
            Expr::Assign(a) => {
                assert_eq!(a.name.lexeme, "a");
                assert!(a.access.is_some());
            }
            other => panic!("unexpected expression {:?}", other),
        },
        other => panic!("unexpected statement {:?}", other),
    }
}

#[test]
fn parse_assignment_to_property() {
    let (r, state) = parse("a.b = 2\n");
    assert_eq!(r, Ok(()));
    match &state.stmts[0] {
        Stmt::Expr(e) => match &e.expression {
            Expr::SetProp(s) => {
                assert_eq!(s.name.lexeme, "b");
                assert!(s.access.is_none());
            }
            other => panic!("unexpected expression {:?}", other),
        },
        other => panic!("unexpected statement {:?}", other),
    }
}

#[test]
fn parse_class_with_methods() {
    let (r, state) = parse("class A < B {\n init() {\n }\n class make() {\n }\n}\n");
    assert_eq!(r, Ok(()));
    assert!(state.errors.is_empty());
    match &state.stmts[0] {
        Stmt::Class(c) => {
            assert_eq!(c.name.as_ref().unwrap().lexeme, "A");
            assert_eq!(c.superclass.as_ref().unwrap().name.as_ref().unwrap().lexeme, "B");
            assert_eq!(c.methods.len(), 1);
            assert_eq!(c.static_methods.len(), 1);
        }
        other => panic!("unexpected statement {:?}", other),
    }
}

#[test]
fn parse_break_outside_loop_is_an_error() {
    let (r, state) = parse("break\n");
    assert_eq!(r, Ok(()));
    assert_eq!(state.errors.len(), 1);
    assert_eq!(state.errors[0].message, "Statement only allowed for use inside loop");
}

#[test]
fn parse_break_inside_loop_is_fine() {
    let (r, state) = parse("while true {\n break\n}\n");
    assert_eq!(r, Ok(()));
    assert!(state.errors.is_empty());
}

#[test]
fn parse_abandoned_on_undefined_expression() {
    let (r, state) = parse("let a = )\n");
    assert_eq!(r, Err(()));
    assert_eq!(state.errors.last().unwrap().message, "Undefined expression");
}

#[test]
fn parse_abandoned_on_bad_assignment_target() {
    let (r, state) = parse("1 = 2\n");
    assert_eq!(r, Err(()));
    assert_eq!(state.errors.last().unwrap().message, "Undefined statement");
}

#[test]
fn parse_dictionary_pairs() {
    let (r, state) = parse("let d = {1: 2, 3: 4}\n");
    assert_eq!(r, Ok(()));
    match &state.stmts[0] {
        Stmt::Let(l) => match &l.initializer {
            Some(Expr::Dictionary(d)) => assert_eq!(d.elements.len(), 4),
            other => panic!("unexpected initializer {:?}", other),
        },
        other => panic!("unexpected statement {:?}", other),
    }
}

#[test]
fn parse_slice_parts() {
    let (r, state) = parse("a[1:2]\n");
    assert_eq!(r, Ok(()));
    match &state.stmts[0] {
        Stmt::Expr(e) => match &e.expression {
            Expr::Access(a) => {
                assert!(!a.first.is_empty());
                assert_eq!(a.first_colon.token, Token::Colon);
                assert!(!a.second.is_empty());
                assert_eq!(a.second_colon.token, Token::Nil);
                assert!(a.third.is_empty());
            }
            other => panic!("unexpected expression {:?}", other),
        },
        other => panic!("unexpected statement {:?}", other),
    }
}

#[test]
fn parse_source_code_reports_lexer_errors() {
    let r = parse_source_code("let a = $\n".to_string());
    match r {
        Err(errors) => {
            assert_eq!(errors.len(), 1);
            assert_eq!(errors[0].message, "Illegal character");
        }
        Ok(_) => panic!("expected errors"),
    }
}

#[test]
fn parse_source_code_reports_parser_errors() {
    let r = parse_source_code("fn (\n".to_string());
    assert!(r.is_err());
    assert!(!r.unwrap_err().is_empty());
}

#[test]
fn parse_source_code_gives_statements() {
    let stmts = parse_source_code("let a = 1\nlet b = a\n".to_string()).unwrap();
    assert_eq!(stmts.len(), 2);
}

#[test]
fn scan_lone_bang_is_an_error() {
    let (ok, state) = lex("a ! b\n");
    assert!(ok);
    assert_eq!(state.errors.len(), 1);
    assert_eq!(state.errors[0].message, "'!' cannot be used here");
    assert_eq!(state.errors[0].line, 0);
}

/// A name of letters only (identifiers hold no digits).
fn letters(mut i: usize) -> String {
    let mut s = String::from("p");
    loop {
        s.push((b'a' + (i % 26) as u8) as char);
        i /= 26;
        if i == 0 {
            return s;
        }
    }
}

#[test]
fn identifiers_hold_no_digits() {
    let (ok, state) = lex("p0\n");
    assert!(ok);
    assert_eq!(kinds(&state), vec![Token::Identifier, Token::Number, Token::Newline, Token::EOF]);
}

#[test]
fn parse_abandoned_on_too_many_parameters() {
    let params: Vec<String> = (0..257).map(letters).collect();
    let source = format!("fn f({}) {{\nreturn 1\n}}\n", params.join(", "));
    let (r, state) = parse(&source);
    assert_eq!(r, Err(()));
    assert_eq!(state.errors.last().unwrap().message, "Max number of parameters is 255");
}

#[test]
fn parse_accepts_the_most_parameters() {
    let params: Vec<String> = (0..256).map(letters).collect();
    let source = format!("fn f({}) {{\nreturn 1\n}}\n", params.join(", "));
    let (r, state) = parse(&source);
    assert_eq!(r, Ok(()));
    assert!(state.errors.is_empty());
}

/// The expression as text with every operator application in parentheses.
fn shape(e: &Expr) -> String {
    match e {
        Expr::Binary(b) => format!("({} {} {})", shape(&b.left), b.operator.lexeme, shape(&b.right)),
        Expr::Logical(l) => format!("({} {} {})", shape(&l.left), l.operator.lexeme, shape(&l.right)),
        Expr::Unary(u) => format!("({} {})", u.operator.lexeme, shape(&u.right)),
        Expr::Grouping(g) => shape(&g.expression),
        Expr::Literal(l) => match &l.value {
            Literal::Number(n) => n.clone(),
            Literal::String(s) => format!("{:?}", s),
            other => format!("{:?}", other),
        },
        Expr::Var(v) => v.name.as_ref().map(|n| n.lexeme.clone()).unwrap_or_default(),
        other => format!("{:?}", other),
    }
}

fn parsed_shape(source: &str) -> String {
    let (r, state) = parse(source);
    assert_eq!(r, Ok(()));
    assert!(state.errors.is_empty());
    match &state.stmts[0] {
        Stmt::Expr(e) => shape(&e.expression),
        other => panic!("unexpected statement {:?}", other),
    }
}

#[test]
fn operators_of_one_level_group_to_the_left() {
    assert_eq!(parsed_shape("1 - 2 - 3\n"), "((1 - 2) - 3)");
    assert_eq!(parsed_shape("8 / 4 * 2\n"), "((8 / 4) * 2)");
    assert_eq!(parsed_shape("2 ^ 3 ^ 2\n"), "((2 ^ 3) ^ 2)");
    assert_eq!(parsed_shape("a or b or c\n"), "((a or b) or c)");
}

#[test]
fn operators_nest_by_precedence() {
    assert_eq!(
        parsed_shape("a or b and c == d < e + f * g ^ h\n"),
        "(a or (b and (c == (d < (e + (f * (g ^ h)))))))"
    );
    assert_eq!(parsed_shape("not a and -b ^ 2\n"), "((not a) and ((- b) ^ 2))");
    assert_eq!(parsed_shape("1+(2+5*10)/2\n"), "(1 + ((2 + (5 * 10)) / 2))");
}

#[test]
fn copies_of_statements_are_equal_to_them() {
    let (r, state) = parse(
        "fn f(a, b) {\nreturn a + b * 2\n}\nclass C < D {\ng() {\nthis.x = [1, {\"k\": 2}]\n}\n}\nif a {\nb = c[1:2]\n} elif d {\nwhile e {\nbreak\n}\n} else {\nfor x in y {\ncontinue\n}\n}\ntry {\nf(1)\n}\ncatch err {\nlet z = not -q\n}\n",
    );
    assert_eq!(r, Ok(()));
    assert!(!state.stmts.is_empty());
    for s in &state.stmts {
        assert_eq!(&s.copied(), s);
        if let Stmt::Fn(f) = s {
            assert_eq!(&f.copied(), f);
        }
    }
}

#[test]
fn parse_source_without_tokens_gives_no_statement() {
    let stmts = parse_source_code("".to_string()).unwrap();
    assert!(stmts.is_empty());
}

#[test]
fn parse_source_gives_statements_when_there_are_tokens() {
    let stmts = parse_source_code("1\n2\n".to_string()).unwrap();
    assert_eq!(stmts.len(), 2);
}

#[test]
fn parse_source_of_literal_lines_gives_one_literal_statement_each() {
    let stmts = parse_source_code("1\n\"a\"\ntrue\nnil\n".to_string()).unwrap();
    assert_eq!(stmts.len(), 4);
    let values: Vec<Literal> = stmts
        .iter()
        .map(|s| match s {
            Stmt::Expr(e) => match &e.expression {
                Expr::Literal(l) => l.value.clone(),
                other => panic!("unexpected {:?}", other),
            },
            other => panic!("unexpected {:?}", other),
        })
        .collect();
    assert_eq!(values[0], Literal::Number("1".to_string()));
    assert_eq!(values[1], Literal::String("a".to_string()));
    assert_eq!(values[2], Literal::Boolean(true));
    assert_eq!(values[3], Literal::Nil);
}

#[test]
fn parse_source_of_let_lines_gives_let_statements() {
    let stmts = parse_source_code("let a = 1\n2\n".to_string()).unwrap();
    assert_eq!(stmts.len(), 2);
    match &stmts[0] {
        Stmt::Let(l) => {
            assert_eq!(l.name.lexeme, "a");
            match &l.initializer {
                Some(Expr::Literal(v)) => assert_eq!(v.value, Literal::Number("1".to_string())),
                other => panic!("unexpected {:?}", other),
            }
        }
        other => panic!("unexpected {:?}", other),
    }
    assert!(matches!(&stmts[1], Stmt::Expr(_)));
}
