use std::collections::HashSet;

use ll1_grammar::cfg::{ContextFreeGrammar, Nonterminals, Productions, Symbol, Terminals};
use ll1_grammar::ll1::LL1;
use ll1_grammar::toyc::{
    add_op, assign_op, char_literal, comma, eof, identifier, kw_break, kw_char, kw_else, kw_if, kw_int, kw_newline, kw_read, kw_return, kw_while, kw_write, l_curly, l_paren, mul_op, not, nt_actual_parameters, nt_actual_parameters_, nt_break_statement, nt_compound_statement, nt_compound_statement_, nt_compound_statement__, nt_definition, nt_definition_, nt_expression, nt_expression_, nt_expression_statement, nt_formal_param_list, nt_formal_param_list_, nt_function_body, nt_function_call, nt_function_call_, nt_function_definition, nt_function_header, nt_function_header_, nt_if_statement, nt_if_statement_, nt_newline_statement, nt_null_statement, nt_primary, nt_primary_, nt_read_statement, nt_read_statement_, nt_relop_expression, nt_relop_expression_, nt_return_statement, nt_return_statement_, nt_simple_expression, nt_simple_expression_, nt_statement, nt_term, nt_term_, nt_toy_c_program_, nt_type, nt_while_statement, nt_write_statement, number, r_curly, r_paren, rel_op, semicolon, string_literal,
};
use ll1_grammar::toyc::{nonterminals, Keyword, Token};

#[test]
fn toyc_is_ll1() {
    // declare all terminals
    let terminals: Terminals<Token> = Token::values();

    // declare all nonterminals
    let nonterminals: Nonterminals<&'static str> = nonterminals();

    let p_toy_c_program = ("ToyCProgram", vec![vec![nt_toy_c_program_(), eof()]]);

    let p_toy_c_program_ = (
        "ToyCProgram'",
        vec![vec![nt_definition(), nt_toy_c_program_()], vec![]],
    );

    let p_definition = (
        "Definition",
        vec![vec![nt_type(), identifier(), nt_definition_()]],
    );

    let p_definition_ = (
        "Definition'",
        vec![vec![nt_function_definition()], vec![semicolon()]],
    );

    let p_type = ("Type", vec![vec![kw_int()], vec![kw_char()]]);

    let p_function_definition = (
        "FunctionDefinition",
        vec![vec![nt_function_header(), nt_function_body()]],
    );

    let p_function_header = (
        "FunctionHeader",
        vec![vec![l_paren(), nt_function_header_(), r_paren()]],
    );

    let p_function_header_ = (
        "FunctionHeader'",
        vec![vec![nt_formal_param_list()], vec![]],
    );

    let p_function_body = ("FunctionBody", vec![vec![nt_compound_statement()]]);

    let p_formal_param_list = (
        "FormalParamList",
        vec![vec![nt_type(), identifier(), nt_formal_param_list_()]],
    );

    let p_formal_param_list_ = (
        "FormalParamList'",
        vec![vec![comma(), nt_type(), identifier(), nt_formal_param_list_()],
            vec![],
        ],
    );

    let p_statement = (
        "Statement",
        vec![vec![nt_expression_statement()],
            vec![nt_break_statement()],
            vec![nt_compound_statement()],
            // vec![nt_if_statement()], // causes crash - todo : remove ambiguity
            vec![nt_null_statement()],
            vec![nt_return_statement()],
            vec![nt_while_statement()],
            vec![nt_read_statement()],
            vec![nt_write_statement()],
            vec![nt_newline_statement()],
        ],
    );

    let p_expression_statement = (
        "ExpressionStatement",
        vec![vec![nt_expression(), semicolon()]],
    );

    let p_break_statement = ("BreakStatement", vec![vec![kw_break(), semicolon()]]);

    let p_compound_statement = (
        "CompoundStatement",
        vec![vec![
            l_curly(),
            nt_compound_statement_(),
            nt_compound_statement__(),
            r_curly(),
        ]],
    );

    let p_compound_statement_ = (
        "CompoundStatement'",
        vec![vec![
                nt_type(),
                identifier(),
                semicolon(),
                nt_compound_statement_(),
            ],
            vec![],
        ],
    );

    let p_compound_statement__ = (
        "CompoundStatement''",
        vec![vec![nt_statement(), nt_compound_statement__()], vec![]],
    );

    let p_if_statement = (
        "IfStatement",
        vec![vec![
            kw_if(),
            l_paren(),
            nt_expression(),
            r_paren(),
            nt_statement(),
            nt_if_statement_(),
        ]],
    );

    let p_if_statement_ = (
        "IfStatement'",
        vec![vec![kw_else(), nt_statement()], vec![]],
    );

    let p_null_statement = ("NullStatement", vec![vec![semicolon()]]);

    let p_return_statement = (
        "ReturnStatement",
        vec![vec![kw_return(), nt_return_statement_(), semicolon()]],
    );

    let p_return_statement_ = ("ReturnStatement'", vec![vec![nt_expression()], vec![]]);

    let p_while_statement = (
        "WhileStatement",
        vec![vec![
            kw_while(),
            l_paren(),
            nt_expression(),
            r_paren(),
            nt_statement(),
        ]],
    );

    let p_read_statement = (
        "ReadStatement",
        vec![vec![
            kw_read(),
            l_paren(),
            identifier(),
            nt_read_statement_(),
            r_paren(),
            semicolon(),
        ]],
    );

    let p_read_statement_ = (
        "ReadStatement'",
        vec![vec![comma(), identifier(), nt_read_statement_()], vec![]],
    );

    let p_write_statement = (
        "WriteStatement",
        vec![vec![
            kw_write(),
            l_paren(),
            nt_actual_parameters(),
            r_paren(),
            semicolon(),
        ]],
    );

    let p_newline_statement = ("NewLineStatement", vec![vec![kw_newline(), semicolon()]]);

    let p_expression = (
        "Expression",
        vec![vec![nt_relop_expression(), nt_expression_()]],
    );

    let p_expression_ = (
        "Expression'",
        vec![vec![assign_op(), nt_relop_expression(), nt_expression_()],
            vec![],
        ],
    );

    let p_relop_expression = (
        "RelopExpression",
        vec![vec![nt_simple_expression(), nt_relop_expression_()]],
    );

    let p_relop_expression_ = (
        "RelopExpression'",
        vec![vec![rel_op(), nt_simple_expression(), nt_relop_expression_()],
            vec![],
        ],
    );

    let p_simple_expression = (
        "SimpleExpression",
        vec![vec![nt_term(), nt_simple_expression_()]],
    );

    let p_simple_expression_ = (
        "SimpleExpression'",
        vec![vec![add_op(), nt_term(), nt_simple_expression_()], vec![]],
    );

    let p_term = ("Term", vec![vec![nt_primary(), nt_term_()]]);

    let p_term_ = (
        "Term'",
        vec![vec![mul_op(), nt_primary(), nt_term_()], vec![]],
    );

    let p_primary = (
        "Primary",
        vec![vec![identifier(), nt_primary_()],
            vec![number()],
            vec![string_literal()],
            vec![char_literal()],
            vec![l_paren(), nt_expression(), r_paren()],
            vec![add_op(), nt_primary()], // '-' is a subset of AddOp
            vec![not(), nt_primary()],
        ],
    );

    let p_primary_ = ("Primary'", vec![vec![nt_function_call()], vec![]]);

    let p_function_call = (
        "FunctionCall",
        vec![vec![l_paren(), nt_function_call_(), r_paren()]],
    );

    let p_function_call_ = (
        "FunctionCall'",
        vec![vec![nt_actual_parameters()], vec![]],
    );

    let p_actual_parameters = (
        "ActualParameters",
        vec![vec![nt_expression(), nt_actual_parameters_()]],
    );

    let p_actual_parameters_ = (
        "ActualParameters'",
        vec![vec![comma(), nt_expression(), nt_actual_parameters_()],
            vec![],
        ],
    );
    let productions: Productions<Token, &'static str> = vec![
        p_toy_c_program,
        p_toy_c_program_,
        p_definition,
        p_definition_,
        p_type,
        p_function_definition,
        p_function_header,
        p_function_header_,
        p_function_body,
        p_formal_param_list,
        p_formal_param_list_,
        p_statement,
        p_expression_statement,
        p_break_statement,
        p_compound_statement,
        p_compound_statement_,
        p_compound_statement__,
        p_if_statement,
        p_if_statement_,
        p_null_statement,
        p_return_statement,
        p_return_statement_,
        p_while_statement,
        p_read_statement,
        p_read_statement_,
        p_write_statement,
        p_newline_statement,
        p_expression,
        p_expression_,
        p_relop_expression,
        p_relop_expression_,
        p_simple_expression,
        p_simple_expression_,
        p_term,
        p_term_,
        p_primary,
        p_primary_,
        p_function_call,
        p_function_call_,
        p_actual_parameters,
        p_actual_parameters_,
    ];
    let cfg = ContextFreeGrammar::new(terminals, nonterminals, productions).unwrap();

    let ll1 = LL1::new(cfg).unwrap();

    println!("predict sets: {:#?}", ll1.get_predict_sets().get(&"Statement"));

    let statement: HashSet<Token> =
        ll1.get_predict_sets().get(&"Statement").unwrap().into_iter().collect();
    let expected: HashSet<Token> = [
        Token::Identifier,
        Token::Number,
        Token::StringLiteral,
        Token::CharLiteral,
        Token::LParen,
        Token::AddOp,
        Token::Not,
        Token::Keyword(Keyword::Break),
        Token::LCurly,
        Token::Semicolon,
        Token::Keyword(Keyword::Return),
        Token::Keyword(Keyword::While),
        Token::Keyword(Keyword::Read),
        Token::Keyword(Keyword::Write),
        Token::Keyword(Keyword::Newline),
    ]
    .into_iter()
    .collect();
    assert_eq!(statement, expected);

    let program: HashSet<Token> =
        ll1.get_predict_sets().get(&"ToyCProgram'").unwrap().into_iter().collect();
    let expected: HashSet<Token> =
        [Token::Keyword(Keyword::Int), Token::Keyword(Keyword::Char), Token::Eof]
            .into_iter()
            .collect();
    assert_eq!(program, expected);
}

#[test]
fn toyc_token_classes() {
    let keywords = Keyword::values();
    assert_eq!(keywords.len(), 16);
    assert_eq!(keywords[0], Keyword::Int);
    assert_eq!(keywords[15], Keyword::Write);
    let tokens = Token::values();
    assert_eq!(tokens.len(), 35);
    assert_eq!(tokens[0], Token::Keyword(Keyword::Int));
    assert_eq!(tokens[15], Token::from(Keyword::Write));
    assert_eq!(tokens[16], Token::Identifier);
    assert_eq!(tokens[34], Token::Eof);
    let distinct: HashSet<Token> = tokens.iter().copied().collect();
    assert_eq!(distinct.len(), 35);
}

#[test]
fn toyc_symbols() {
    assert_eq!(kw_int(), Symbol::Terminal(Token::Keyword(Keyword::Int)));
    assert_eq!(kw_write(), Symbol::Terminal(Token::Keyword(Keyword::Write)));
    assert_eq!(eof(), Symbol::Terminal(Token::Eof));
    assert_eq!(not(), Symbol::Terminal(Token::Not));
    assert_eq!(nt_toy_c_program_(), Symbol::Nonterminal("ToyCProgram'"));
    assert_eq!(nt_compound_statement__(), Symbol::Nonterminal("CompoundStatement''"));
    assert_eq!(nt_actual_parameters(), Symbol::Nonterminal("ActualParameters"));
    let names = nonterminals();
    assert_eq!(names.len(), 41);
    assert_eq!(names[0], "ToyCProgram");
    assert_eq!(names[40], "ActualParameters'");
}
