use gembiler::ast::{Command, Condition, Declaration, ExprOp, Expression, Identifier, Program};
use gembiler::ast::{RelOp, Value};
use gembiler::parser::lexer::{tokenize, LexError, Token, Word};
use gembiler::parser::{parse_ast, ParseError};

#[test]
fn simplest() {
    let text = "BEGIN WRITE 0; END";
    let parsed = parse_ast(text);
    let expected = Program {
        declarations: None,
        commands: vec![
            Command::Write { value: Value::Num(0), },
        ],
    };

    assert_eq!(parsed.unwrap(), expected);
}

#[test]
fn simple_declarations() {
    let text = r#"
        DECLARE a, b, c(1:10)
        BEGIN
            WRITE 0;
        END
    "#;
    let parsed = parse_ast(text);
    let expected = Program {
        declarations: Some(vec![
            Declaration::Var { name: String::from("a") },
            Declaration::Var { name: String::from("b") },
            Declaration::Array {
                name: String::from("c"),
                start: 1,
                end: 10,
            },
        ]),
        commands: vec![
            Command::Write { value: Value::Num(0), },
        ],
    };

    assert_eq!(parsed.unwrap(), expected);
}

#[test]
fn program0() {
    let text = r#"
        [ binary representation ]
        DECLARE
            a, b
        BEGIN
            READ a;
            IF a GEQ 0 THEN
                WHILE a GE 0 DO
                    b ASSIGN a DIV 2;
                    b ASSIGN 2 TIMES b; [ b := a & ~1 ]
                    IF a GE b THEN
                        WRITE 1;
                    ELSE
                        WRITE 0;
                    ENDIF
                    a ASSIGN a DIV 2;
                ENDWHILE
            ENDIF
        END
    "#;

    let parsed = parse_ast(text);

    let var_a = Identifier::VarAccess { name: String::from("a") };
    let var_b = Identifier::VarAccess { name: String::from("b") };

    let expected = Program {
        declarations: Some(vec![
            Declaration::Var { name: String::from("a") },
            Declaration::Var { name: String::from("b") },
        ]),
        commands: vec![
            Command::Read { target: var_a.clone() },
            Command::If {
                condition: Condition {
                    left: Value::Identifier(var_a.clone()),
                    op: RelOp::GEQ,
                    right: Value::Num(0),
                },
                positive: vec![
                    Command::While {
                        condition: Condition {
                            left: Value::Identifier(var_a.clone()),
                            op: RelOp::GT,
                            right: Value::Num(0),
                        },
                        commands: vec![
                            Command::Assign {
                                target: var_b.clone(),
                                expr: Expression::Compound {
                                    left: Value::Identifier(var_a.clone()),
                                    op: ExprOp::Div,
                                    right: Value::Num(2),
                                }
                            },
                            Command::Assign {
                                target: var_b.clone(),
                                expr: Expression::Compound {
                                    left: Value::Num(2),
                                    op: ExprOp::Times,
                                    right: Value::Identifier(var_b.clone()),
                                }
                            },
                            Command::IfElse {
                                condition: Condition {
                                    left: Value::Identifier(var_a.clone()),
                                    op: RelOp::GT,
                                    right: Value::Identifier(var_b.clone()),
                                },
                                positive: vec![
                                    Command::Write {
                                        value: Value::Num(1),
                                    }
                                ],
                                negative: vec![
                                    Command::Write {
                                        value: Value::Num(0),
                                    }
                                ],
                            },
                            Command::Assign {
                                target: var_a.clone(),
                                expr: Expression::Compound {
                                    left: Value::Identifier(var_a.clone()),
                                    op: ExprOp::Div,
                                    right: Value::Num(2),
                                }
                            },
                        ],
                    }
                ],
            }
        ],
    };

    assert_eq!(parsed.unwrap(), expected);
}

#[test]
fn program1() {
    let text = r#"
        [ Eratostenes' sieve ]
        DECLARE
            n, j, sieve(2:100)
        BEGIN
            n ASSIGN 100;
            FOR i FROM n DOWNTO 2 DO
                sieve(i) ASSIGN 1;
            ENDFOR
            FOR i FROM 2 TO n DO
                IF sieve(i) NEQ 0 THEN
                    j ASSIGN i PLUS i;
                    WHILE j LEQ n DO
                        sieve(j) ASSIGN 0;
                        j ASSIGN j PLUS i;
                    ENDWHILE
                    WRITE i;
                ENDIF
            ENDFOR
        END
    "#;

    let parsed = parse_ast(text);

    let var_n = Identifier::VarAccess { name: String::from("n") };
    let var_j = Identifier::VarAccess { name: String::from("j") };
    let temp_i = Identifier::VarAccess { name: String::from("i") };
    let var_sieve = String::from("sieve");

    let expected = Program {
        declarations: Some(vec![
            Declaration::Var { name: String::from("n") },
            Declaration::Var { name: String::from("j") },
            Declaration::Array {
                name: String::from("sieve"),
                start: 2,
                end: 100,
            },
        ]),
        commands: vec![
            Command::Assign {
                target: var_n.clone(),
                expr: Expression::Simple {
                    value: Value::Num(100),
                },
            },
            Command::For {
                counter: "i".to_string(),
                ascending: false,
                from: Value::Identifier(var_n.clone()),
                to: Value::Num(2),
                commands: vec![
                    Command::Assign {
                        target: Identifier::ArrAccess {
                            name: var_sieve.clone(),
                            index: String::from("i"),
                        },
                        expr: Expression::Simple {
                            value: Value::Num(1),
                        },
                    },
                ],
            },
            Command::For {
                counter: "i".to_string(),
                ascending: true,
                from: Value::Num(2),
                to: Value::Identifier(var_n.clone()),
                commands: vec![
                    Command::If {
                        condition: Condition {
                            left: Value::Identifier(Identifier::ArrAccess {
                                name: var_sieve.clone(),
                                index: String::from("i")
                            }),
                            op: RelOp::NEQ,
                            right: Value::Num(0),
                        },
                        positive: vec![
                            Command::Assign {
                                target: var_j.clone(),
                                expr: Expression::Compound {
                                    left: Value::Identifier(temp_i.clone()),
                                    op: ExprOp::Plus,
                                    right: Value::Identifier(temp_i.clone()),
                                }
                            },
                            Command::While {
                                condition: Condition {
                                    left: Value::Identifier(var_j.clone()),
                                    op: RelOp::LEQ,
                                    right: Value::Identifier(var_n.clone()),
                                },
                                commands: vec![
                                    Command::Assign {
                                        target: Identifier::ArrAccess {
                                            name: var_sieve.clone(),
                                            index: String::from("j"),
                                        },
                                        expr: Expression::Simple {
                                            value: Value::Num(0),
                                        },
                                    },
                                    Command::Assign {
                                        target: var_j.clone(),
                                        expr: Expression::Compound {
                                            left: Value::Identifier(var_j.clone()),
                                            op: ExprOp::Plus,
                                            right: Value::Identifier(temp_i.clone()),
                                        }
                                    },
                                ],
                            },
                            Command::Write {
                                value: Value::Identifier(temp_i.clone())
                            }
                        ],
                    }
                ],
            },
        ],
    };

    assert_eq!(parsed.unwrap(), expected);
}


#[test]
fn tokens_of_a_text() {
    let tokens = tokenize(b"a ASSIGN tab(-12) [ note ] PLUS _b;").unwrap();
    assert_eq!(
        tokens,
        vec![
            Token::Name(String::from("a")),
            Token::Word(Word::Assign),
            Token::Name(String::from("tab")),
            Token::Open,
            Token::Number(-12),
            Token::Close,
            Token::Word(Word::Plus),
            Token::Name(String::from("_b")),
            Token::Semicolon,
        ]
    );
}

#[test]
fn numbers_at_the_limits() {
    assert_eq!(
        tokenize(b"9223372036854775807 -9223372036854775808 007"),
        Ok(vec![Token::Number(i64::MAX), Token::Number(i64::MIN), Token::Number(7)])
    );
    assert_eq!(
        tokenize(b"9223372036854775808"),
        Err(LexError::NumberOutOfRange { position: 0 })
    );
    assert_eq!(
        tokenize(b" -9223372036854775809"),
        Err(LexError::NumberOutOfRange { position: 1 })
    );
}

#[test]
fn what_is_no_token() {
    assert_eq!(tokenize(b"a > b"), Err(LexError::UnexpectedCharacter { position: 2 }));
    assert_eq!(tokenize(b"a - b"), Err(LexError::UnexpectedCharacter { position: 2 }));
    assert_eq!(tokenize(b"BEGINN"), Err(LexError::UnknownKeyword { position: 0 }));
    assert_eq!(tokenize(b"a [ b"), Err(LexError::UnterminatedComment { position: 2 }));
}

#[test]
fn do_loop_and_nested_while() {
    let text = "BEGIN DO WHILE a LE 1 DO READ a; ENDWHILE WRITE a; WHILE a NEQ b ENDDO END";
    let a = || Identifier::VarAccess { name: String::from("a") };
    let expected = Program {
        declarations: None,
        commands: vec![Command::Do {
            commands: vec![
                Command::While {
                    condition: Condition {
                        left: Value::Identifier(a()),
                        op: RelOp::LT,
                        right: Value::Num(1),
                    },
                    commands: vec![Command::Read { target: a() }],
                },
                Command::Write { value: Value::Identifier(a()) },
            ],
            condition: Condition {
                left: Value::Identifier(a()),
                op: RelOp::NEQ,
                right: Value::Identifier(Identifier::VarAccess { name: String::from("b") }),
            },
        }],
    };
    assert_eq!(parse_ast(text), Ok(expected));
}

#[test]
fn texts_that_are_no_programs() {
    assert_eq!(parse_ast(""), Err(ParseError::UnexpectedEnd));
    assert_eq!(parse_ast("BEGIN WRITE 0;"), Err(ParseError::UnexpectedEnd));
    assert_eq!(parse_ast("BEGIN WRITE 0 END"), Err(ParseError::UnexpectedToken { position: 3 }));
    assert_eq!(
        parse_ast("BEGIN WRITE 0; END END"),
        Err(ParseError::UnexpectedToken { position: 5 })
    );
    assert_eq!(
        parse_ast("DECLARE BEGIN WRITE 0; END"),
        Err(ParseError::UnexpectedToken { position: 1 })
    );
    assert_eq!(
        parse_ast("BEGIN WHILE a EQ b ENDDO END"),
        Err(ParseError::UnexpectedToken { position: 5 })
    );
    assert_eq!(
        parse_ast("BEGIN a ASSIGN B; END"),
        Err(ParseError::Lex(LexError::UnknownKeyword { position: 15 }))
    );
}

#[test]
fn declarations_need_one_name() {
    assert_eq!(
        parse_ast("DECLARE BEGIN WRITE 0; END"),
        Err(ParseError::UnexpectedToken { position: 1 })
    );
    assert_eq!(
        parse_ast("DECLARE a, BEGIN WRITE 0; END"),
        Err(ParseError::UnexpectedToken { position: 3 })
    );
    assert_eq!(parse_ast("DECLARE a(1:"), Err(ParseError::UnexpectedEnd));
    assert_eq!(
        parse_ast("DECLARE a(1:x) BEGIN WRITE 0; END"),
        Err(ParseError::UnexpectedToken { position: 5 })
    );
}

#[test]
fn errors_name_the_first_token_that_cannot_stand() {
    assert_eq!(parse_ast("BEGIN WRITE ; END"), Err(ParseError::UnexpectedToken { position: 2 }));
    assert_eq!(
        parse_ast("BEGIN a ASSIGN b PLUS ; END"),
        Err(ParseError::UnexpectedToken { position: 5 })
    );
    assert_eq!(
        parse_ast("BEGIN IF a EQ b THEN WRITE a; ENDWHILE END"),
        Err(ParseError::UnexpectedToken { position: 9 })
    );
    assert_eq!(
        parse_ast("BEGIN DO WRITE a; ENDDO END"),
        Err(ParseError::UnexpectedToken { position: 5 })
    );
    assert_eq!(
        parse_ast("BEGIN FOR i FROM 1 UNTIL 2 DO WRITE i; ENDFOR END"),
        Err(ParseError::Lex(LexError::UnknownKeyword { position: 19 }))
    );
    assert_eq!(
        parse_ast("BEGIN FOR i FROM 1 DO WRITE i; ENDFOR END"),
        Err(ParseError::UnexpectedToken { position: 5 })
    );
    assert_eq!(
        parse_ast("BEGIN WRITE 0; END END"),
        Err(ParseError::UnexpectedToken { position: 5 })
    );
    assert_eq!(parse_ast("BEGIN READ a(b; END"), Err(ParseError::UnexpectedToken { position: 5 }));
    assert_eq!(parse_ast("BEGIN READ a("), Err(ParseError::UnexpectedEnd));
}

#[test]
fn a_list_of_commands_may_be_empty() {
    assert_eq!(parse_ast("BEGIN END"), Ok(Program { declarations: None, commands: vec![] }));
}
