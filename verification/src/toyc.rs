//! The symbols of the ToyC language, over which its grammar is written.
//!
//! Terminals are token classes; nonterminals go by their names.

use vstd::prelude::*;
use crate::cfg::Symbol;

verus! {

/// A symbol of the ToyC grammar.
pub type ToyCSymbol = Symbol<Token, &'static str>;

/// The keywords of ToyC.
#[derive(Debug, Clone, Copy, PartialEq, Eq, Hash, Structural)]
pub enum Keyword {
    /// `int`
    Int,
    /// `do`
    Do,
    /// `read`
    Read,
    /// `char`
    Char,
    /// `while`
    While,
    /// `continue`
    Continue,
    /// `return`
    Return,
    /// `switch`
    Switch,
    /// `break`
    Break,
    /// `if`
    If,
    /// `case`
    Case,
    /// `newline`
    Newline,
    /// `else`
    Else,
    /// `default`
    Default,
    /// `for`
    For,
    /// `write`
    Write,
}

impl Keyword {
    /// Every keyword, once.
    pub fn values() -> (r: Vec<Keyword>)
        ensures
            r@ == Self::all(),
    {
        let r = vec![
            Self::Int,
            Self::Do,
            Self::Read,
            Self::Char,
            Self::While,
            Self::Continue,
            Self::Return,
            Self::Switch,
            Self::Break,
            Self::If,
            Self::Case,
            Self::Newline,
            Self::Else,
            Self::Default,
            Self::For,
            Self::Write,
        ];
        assert(r@ =~= Self::all());
        r
    }

    /// Every keyword, once, in the order of their declaration.
    pub open spec fn all() -> Seq<Keyword> {
        seq![
            Keyword::Int,
            Keyword::Do,
            Keyword::Read,
            Keyword::Char,
            Keyword::While,
            Keyword::Continue,
            Keyword::Return,
            Keyword::Switch,
            Keyword::Break,
            Keyword::If,
            Keyword::Case,
            Keyword::Newline,
            Keyword::Else,
            Keyword::Default,
            Keyword::For,
            Keyword::Write,
        ]
    }
}

/// The token classes of ToyC. Only a keyword says which one it is.
#[derive(Debug, Clone, Copy, PartialEq, Eq, Hash, Structural)]
pub enum Token {
    /// A keyword.
    Keyword(Keyword),
    /// An identifier.
    Identifier,
    /// A number.
    Number,
    /// A character literal.
    CharLiteral,
    /// A string literal.
    StringLiteral,
    /// A relational operator.
    RelOp,
    /// An additive operator.
    AddOp,
    /// A multiplicative operator.
    MulOp,
    /// `=`
    AssignOp,
    /// `(`
    LParen,
    /// `)`
    RParen,
    /// `{`
    LCurly,
    /// `}`
    RCurly,
    /// `[`
    LBracket,
    /// `]`
    RBracket,
    /// `,`
    Comma,
    /// `;`
    Semicolon,
    /// `!`
    Not,
    /// `:`
    Colon,
    /// The end of the input.
    Eof,
}

impl From<Keyword> for Token {
    fn from(value: Keyword) -> (r: Token) {
        Self::Keyword(value)
    }
}

impl vstd::std_specs::convert::FromSpecImpl<Keyword> for Token {
    open spec fn obeys_from_spec() -> bool {
        true
    }

    open spec fn from_spec(value: Keyword) -> Token {
        Token::Keyword(value)
    }
}

impl Token {
    /// The token classes that are not keywords, in the order of their declaration.
    pub open spec fn plain() -> Seq<Token> {
        seq![
            Token::Identifier,
            Token::Number,
            Token::CharLiteral,
            Token::StringLiteral,
            Token::RelOp,
            Token::AddOp,
            Token::MulOp,
            Token::AssignOp,
            Token::LParen,
            Token::RParen,
            Token::LCurly,
            Token::RCurly,
            Token::LBracket,
            Token::RBracket,
            Token::Comma,
            Token::Semicolon,
            Token::Not,
            Token::Colon,
            Token::Eof,
        ]
    }

    /// Every token class, once: the keywords first.
    pub open spec fn all() -> Seq<Token> {
        Keyword::all().map_values(|k: Keyword| Token::Keyword(k)) + Self::plain()
    }

    /// Every token class, once.
    pub fn values() -> (r: Vec<Token>)
        ensures
            r@ == Self::all(),
    {
        let keywords = Keyword::values();
        let mut r: Vec<Token> = Vec::new();
        let mut i: usize = 0;
        while i < keywords.len()
            invariant
                i <= keywords.len(),
                keywords@ == Keyword::all(),
                r@ == keywords@.take(i as int).map_values(|k: Keyword| Token::Keyword(k)),
            decreases keywords.len() - i,
        {
            r.push(Token::Keyword(keywords[i]));
            assert(r@ =~= keywords@.take(i as int + 1).map_values(|k: Keyword| Token::Keyword(k)));
            i += 1;
        }
        assert(keywords@.take(keywords.len() as int) =~= keywords@);
        let mut others = vec![
            Self::Identifier,
            Self::Number,
            Self::CharLiteral,
            Self::StringLiteral,
            Self::RelOp,
            Self::AddOp,
            Self::MulOp,
            Self::AssignOp,
            Self::LParen,
            Self::RParen,
            Self::LCurly,
            Self::RCurly,
            Self::LBracket,
            Self::RBracket,
            Self::Comma,
            Self::Semicolon,
            Self::Not,
            Self::Colon,
            Self::Eof,
        ];
        assert(others@ =~= Self::plain());
        r.append(&mut others);
        r
    }
}

/// The names of the nonterminals of ToyC.
pub open spec fn nonterminal_names() -> Seq<&'static str> {
    seq![
        "ToyCProgram",
        "ToyCProgram'",
        "Definition",
        "Definition'",
        "Type",
        "FunctionDefinition",
        "FunctionHeader",
        "FunctionHeader'",
        "FunctionBody",
        "FormalParamList",
        "FormalParamList'",
        "Statement",
        "ExpressionStatement",
        "BreakStatement",
        "CompoundStatement",
        "CompoundStatement'",
        "CompoundStatement''",
        "IfStatement",
        "IfStatement'",
        "NullStatement",
        "ReturnStatement",
        "ReturnStatement'",
        "WhileStatement",
        "ReadStatement",
        "ReadStatement'",
        "WriteStatement",
        "NewLineStatement",
        "Expression",
        "Expression'",
        "RelopExpression",
        "RelopExpression'",
        "SimpleExpression",
        "SimpleExpression'",
        "Term",
        "Term'",
        "Primary",
        "Primary'",
        "FunctionCall",
        "FunctionCall'",
        "ActualParameters",
        "ActualParameters'",
    ]
}

/// The names of the nonterminals of ToyC.
pub fn nonterminals() -> (r: Vec<&'static str>)
    ensures
        r@ == nonterminal_names(),
{
    let r = vec![
        "ToyCProgram",
        "ToyCProgram'",
        "Definition",
        "Definition'",
        "Type",
        "FunctionDefinition",
        "FunctionHeader",
        "FunctionHeader'",
        "FunctionBody",
        "FormalParamList",
        "FormalParamList'",
        "Statement",
        "ExpressionStatement",
        "BreakStatement",
        "CompoundStatement",
        "CompoundStatement'",
        "CompoundStatement''",
        "IfStatement",
        "IfStatement'",
        "NullStatement",
        "ReturnStatement",
        "ReturnStatement'",
        "WhileStatement",
        "ReadStatement",
        "ReadStatement'",
        "WriteStatement",
        "NewLineStatement",
        "Expression",
        "Expression'",
        "RelopExpression",
        "RelopExpression'",
        "SimpleExpression",
        "SimpleExpression'",
        "Term",
        "Term'",
        "Primary",
        "Primary'",
        "FunctionCall",
        "FunctionCall'",
        "ActualParameters",
        "ActualParameters'",
    ];
    assert(r@ =~= nonterminal_names());
    r
}

/// The keyword `int`.
pub fn kw_int() -> (r: ToyCSymbol)
    ensures
        r == Symbol::<Token, &'static str>::Terminal(Token::Keyword(Keyword::Int)),
{
    Symbol::Terminal(Token::Keyword(Keyword::Int))
}

/// The keyword `do`.
pub fn kw_do() -> (r: ToyCSymbol)
    ensures
        r == Symbol::<Token, &'static str>::Terminal(Token::Keyword(Keyword::Do)),
{
    Symbol::Terminal(Token::Keyword(Keyword::Do))
}

/// The keyword `read`.
pub fn kw_read() -> (r: ToyCSymbol)
    ensures
        r == Symbol::<Token, &'static str>::Terminal(Token::Keyword(Keyword::Read)),
{
    Symbol::Terminal(Token::Keyword(Keyword::Read))
}

/// The keyword `char`.
pub fn kw_char() -> (r: ToyCSymbol)
    ensures
        r == Symbol::<Token, &'static str>::Terminal(Token::Keyword(Keyword::Char)),
{
    Symbol::Terminal(Token::Keyword(Keyword::Char))
}

/// The keyword `while`.
pub fn kw_while() -> (r: ToyCSymbol)
    ensures
        r == Symbol::<Token, &'static str>::Terminal(Token::Keyword(Keyword::While)),
{
    Symbol::Terminal(Token::Keyword(Keyword::While))
}

/// The keyword `continue`.
pub fn kw_continue() -> (r: ToyCSymbol)
    ensures
        r == Symbol::<Token, &'static str>::Terminal(Token::Keyword(Keyword::Continue)),
{
    Symbol::Terminal(Token::Keyword(Keyword::Continue))
}

/// The keyword `return`.
pub fn kw_return() -> (r: ToyCSymbol)
    ensures
        r == Symbol::<Token, &'static str>::Terminal(Token::Keyword(Keyword::Return)),
{
    Symbol::Terminal(Token::Keyword(Keyword::Return))
}

/// The keyword `switch`.
pub fn kw_switch() -> (r: ToyCSymbol)
    ensures
        r == Symbol::<Token, &'static str>::Terminal(Token::Keyword(Keyword::Switch)),
{
    Symbol::Terminal(Token::Keyword(Keyword::Switch))
}

/// The keyword `break`.
pub fn kw_break() -> (r: ToyCSymbol)
    ensures
        r == Symbol::<Token, &'static str>::Terminal(Token::Keyword(Keyword::Break)),
{
    Symbol::Terminal(Token::Keyword(Keyword::Break))
}

/// The keyword `if`.
pub fn kw_if() -> (r: ToyCSymbol)
    ensures
        r == Symbol::<Token, &'static str>::Terminal(Token::Keyword(Keyword::If)),
{
    Symbol::Terminal(Token::Keyword(Keyword::If))
}

/// The keyword `case`.
pub fn kw_case() -> (r: ToyCSymbol)
    ensures
        r == Symbol::<Token, &'static str>::Terminal(Token::Keyword(Keyword::Case)),
{
    Symbol::Terminal(Token::Keyword(Keyword::Case))
}

/// The keyword `newline`.
pub fn kw_newline() -> (r: ToyCSymbol)
    ensures
        r == Symbol::<Token, &'static str>::Terminal(Token::Keyword(Keyword::Newline)),
{
    Symbol::Terminal(Token::Keyword(Keyword::Newline))
}

/// The keyword `else`.
pub fn kw_else() -> (r: ToyCSymbol)
    ensures
        r == Symbol::<Token, &'static str>::Terminal(Token::Keyword(Keyword::Else)),
{
    Symbol::Terminal(Token::Keyword(Keyword::Else))
}

/// The keyword `default`.
pub fn kw_default() -> (r: ToyCSymbol)
    ensures
        r == Symbol::<Token, &'static str>::Terminal(Token::Keyword(Keyword::Default)),
{
    Symbol::Terminal(Token::Keyword(Keyword::Default))
}

/// The keyword `for`.
pub fn kw_for() -> (r: ToyCSymbol)
    ensures
        r == Symbol::<Token, &'static str>::Terminal(Token::Keyword(Keyword::For)),
{
    Symbol::Terminal(Token::Keyword(Keyword::For))
}

/// The keyword `write`.
pub fn kw_write() -> (r: ToyCSymbol)
    ensures
        r == Symbol::<Token, &'static str>::Terminal(Token::Keyword(Keyword::Write)),
{
    Symbol::Terminal(Token::Keyword(Keyword::Write))
}

/// An identifier.
pub fn identifier() -> (r: ToyCSymbol)
    ensures
        r == Symbol::<Token, &'static str>::Terminal(Token::Identifier),
{
    Symbol::Terminal(Token::Identifier)
}

/// A number.
pub fn number() -> (r: ToyCSymbol)
    ensures
        r == Symbol::<Token, &'static str>::Terminal(Token::Number),
{
    Symbol::Terminal(Token::Number)
}

/// A character literal.
pub fn char_literal() -> (r: ToyCSymbol)
    ensures
        r == Symbol::<Token, &'static str>::Terminal(Token::CharLiteral),
{
    Symbol::Terminal(Token::CharLiteral)
}

/// A string literal.
pub fn string_literal() -> (r: ToyCSymbol)
    ensures
        r == Symbol::<Token, &'static str>::Terminal(Token::StringLiteral),
{
    Symbol::Terminal(Token::StringLiteral)
}

/// A relational operator.
pub fn rel_op() -> (r: ToyCSymbol)
    ensures
        r == Symbol::<Token, &'static str>::Terminal(Token::RelOp),
{
    Symbol::Terminal(Token::RelOp)
}

/// An additive operator.
pub fn add_op() -> (r: ToyCSymbol)
    ensures
        r == Symbol::<Token, &'static str>::Terminal(Token::AddOp),
{
    Symbol::Terminal(Token::AddOp)
}

/// A multiplicative operator.
pub fn mul_op() -> (r: ToyCSymbol)
    ensures
        r == Symbol::<Token, &'static str>::Terminal(Token::MulOp),
{
    Symbol::Terminal(Token::MulOp)
}

/// The token `=`.
pub fn assign_op() -> (r: ToyCSymbol)
    ensures
        r == Symbol::<Token, &'static str>::Terminal(Token::AssignOp),
{
    Symbol::Terminal(Token::AssignOp)
}

/// The token `(`.
pub fn l_paren() -> (r: ToyCSymbol)
    ensures
        r == Symbol::<Token, &'static str>::Terminal(Token::LParen),
{
    Symbol::Terminal(Token::LParen)
}

/// The token `)`.
pub fn r_paren() -> (r: ToyCSymbol)
    ensures
        r == Symbol::<Token, &'static str>::Terminal(Token::RParen),
{
    Symbol::Terminal(Token::RParen)
}

/// The token `{`.
pub fn l_curly() -> (r: ToyCSymbol)
    ensures
        r == Symbol::<Token, &'static str>::Terminal(Token::LCurly),
{
    Symbol::Terminal(Token::LCurly)
}

/// The token `}`.
pub fn r_curly() -> (r: ToyCSymbol)
    ensures
        r == Symbol::<Token, &'static str>::Terminal(Token::RCurly),
{
    Symbol::Terminal(Token::RCurly)
}

/// The token `[`.
pub fn l_bracket() -> (r: ToyCSymbol)
    ensures
        r == Symbol::<Token, &'static str>::Terminal(Token::LBracket),
{
    Symbol::Terminal(Token::LBracket)
}

/// The token `]`.
pub fn r_bracket() -> (r: ToyCSymbol)
    ensures
        r == Symbol::<Token, &'static str>::Terminal(Token::RBracket),
{
    Symbol::Terminal(Token::RBracket)
}

/// The token `,`.
pub fn comma() -> (r: ToyCSymbol)
    ensures
        r == Symbol::<Token, &'static str>::Terminal(Token::Comma),
{
    Symbol::Terminal(Token::Comma)
}

/// The token `;`.
pub fn semicolon() -> (r: ToyCSymbol)
    ensures
        r == Symbol::<Token, &'static str>::Terminal(Token::Semicolon),
{
    Symbol::Terminal(Token::Semicolon)
}

/// The token `!`.
pub fn not() -> (r: ToyCSymbol)
    ensures
        r == Symbol::<Token, &'static str>::Terminal(Token::Not),
{
    Symbol::Terminal(Token::Not)
}

/// The token `:`.
pub fn colon() -> (r: ToyCSymbol)
    ensures
        r == Symbol::<Token, &'static str>::Terminal(Token::Colon),
{
    Symbol::Terminal(Token::Colon)
}

/// The end of the input.
pub fn eof() -> (r: ToyCSymbol)
    ensures
        r == Symbol::<Token, &'static str>::Terminal(Token::Eof),
{
    Symbol::Terminal(Token::Eof)
}

/// The nonterminal `ToyCProgram`.
pub fn nt_toy_c_program() -> (r: ToyCSymbol)
    ensures
        r == Symbol::<Token, &'static str>::Nonterminal("ToyCProgram"),
{
    Symbol::Nonterminal("ToyCProgram")
}

/// The nonterminal `ToyCProgram'`.
pub fn nt_toy_c_program_() -> (r: ToyCSymbol)
    ensures
        r == Symbol::<Token, &'static str>::Nonterminal("ToyCProgram'"),
{
    Symbol::Nonterminal("ToyCProgram'")
}

/// The nonterminal `Definition`.
pub fn nt_definition() -> (r: ToyCSymbol)
    ensures
        r == Symbol::<Token, &'static str>::Nonterminal("Definition"),
{
    Symbol::Nonterminal("Definition")
}

/// The nonterminal `Definition'`.
pub fn nt_definition_() -> (r: ToyCSymbol)
    ensures
        r == Symbol::<Token, &'static str>::Nonterminal("Definition'"),
{
    Symbol::Nonterminal("Definition'")
}

/// The nonterminal `Type`.
pub fn nt_type() -> (r: ToyCSymbol)
    ensures
        r == Symbol::<Token, &'static str>::Nonterminal("Type"),
{
    Symbol::Nonterminal("Type")
}

/// The nonterminal `FunctionDefinition`.
pub fn nt_function_definition() -> (r: ToyCSymbol)
    ensures
        r == Symbol::<Token, &'static str>::Nonterminal("FunctionDefinition"),
{
    Symbol::Nonterminal("FunctionDefinition")
}

/// The nonterminal `FunctionHeader`.
pub fn nt_function_header() -> (r: ToyCSymbol)
    ensures
        r == Symbol::<Token, &'static str>::Nonterminal("FunctionHeader"),
{
    Symbol::Nonterminal("FunctionHeader")
}

/// The nonterminal `FunctionHeader'`.
pub fn nt_function_header_() -> (r: ToyCSymbol)
    ensures
        r == Symbol::<Token, &'static str>::Nonterminal("FunctionHeader'"),
{
    Symbol::Nonterminal("FunctionHeader'")
}

/// The nonterminal `FunctionBody`.
pub fn nt_function_body() -> (r: ToyCSymbol)
    ensures
        r == Symbol::<Token, &'static str>::Nonterminal("FunctionBody"),
{
    Symbol::Nonterminal("FunctionBody")
}

/// The nonterminal `FormalParamList`.
pub fn nt_formal_param_list() -> (r: ToyCSymbol)
    ensures
        r == Symbol::<Token, &'static str>::Nonterminal("FormalParamList"),
{
    Symbol::Nonterminal("FormalParamList")
}

/// The nonterminal `FormalParamList'`.
pub fn nt_formal_param_list_() -> (r: ToyCSymbol)
    ensures
        r == Symbol::<Token, &'static str>::Nonterminal("FormalParamList'"),
{
    Symbol::Nonterminal("FormalParamList'")
}

/// The nonterminal `Statement`.
pub fn nt_statement() -> (r: ToyCSymbol)
    ensures
        r == Symbol::<Token, &'static str>::Nonterminal("Statement"),
{
    Symbol::Nonterminal("Statement")
}

/// The nonterminal `ExpressionStatement`.
pub fn nt_expression_statement() -> (r: ToyCSymbol)
    ensures
        r == Symbol::<Token, &'static str>::Nonterminal("ExpressionStatement"),
{
    Symbol::Nonterminal("ExpressionStatement")
}

/// The nonterminal `BreakStatement`.
pub fn nt_break_statement() -> (r: ToyCSymbol)
    ensures
        r == Symbol::<Token, &'static str>::Nonterminal("BreakStatement"),
{
    Symbol::Nonterminal("BreakStatement")
}

/// The nonterminal `CompoundStatement`.
pub fn nt_compound_statement() -> (r: ToyCSymbol)
    ensures
        r == Symbol::<Token, &'static str>::Nonterminal("CompoundStatement"),
{
    Symbol::Nonterminal("CompoundStatement")
}

/// The nonterminal `CompoundStatement'`.
pub fn nt_compound_statement_() -> (r: ToyCSymbol)
    ensures
        r == Symbol::<Token, &'static str>::Nonterminal("CompoundStatement'"),
{
    Symbol::Nonterminal("CompoundStatement'")
}

/// The nonterminal `CompoundStatement''`.
pub fn nt_compound_statement__() -> (r: ToyCSymbol)
    ensures
        r == Symbol::<Token, &'static str>::Nonterminal("CompoundStatement''"),
{
    Symbol::Nonterminal("CompoundStatement''")
}

/// The nonterminal `IfStatement`.
pub fn nt_if_statement() -> (r: ToyCSymbol)
    ensures
        r == Symbol::<Token, &'static str>::Nonterminal("IfStatement"),
{
    Symbol::Nonterminal("IfStatement")
}

/// The nonterminal `IfStatement'`.
pub fn nt_if_statement_() -> (r: ToyCSymbol)
    ensures
        r == Symbol::<Token, &'static str>::Nonterminal("IfStatement'"),
{
    Symbol::Nonterminal("IfStatement'")
}

/// The nonterminal `NullStatement`.
pub fn nt_null_statement() -> (r: ToyCSymbol)
    ensures
        r == Symbol::<Token, &'static str>::Nonterminal("NullStatement"),
{
    Symbol::Nonterminal("NullStatement")
}

/// The nonterminal `ReturnStatement`.
pub fn nt_return_statement() -> (r: ToyCSymbol)
    ensures
        r == Symbol::<Token, &'static str>::Nonterminal("ReturnStatement"),
{
    Symbol::Nonterminal("ReturnStatement")
}

/// The nonterminal `ReturnStatement'`.
pub fn nt_return_statement_() -> (r: ToyCSymbol)
    ensures
        r == Symbol::<Token, &'static str>::Nonterminal("ReturnStatement'"),
{
    Symbol::Nonterminal("ReturnStatement'")
}

/// The nonterminal `WhileStatement`.
pub fn nt_while_statement() -> (r: ToyCSymbol)
    ensures
        r == Symbol::<Token, &'static str>::Nonterminal("WhileStatement"),
{
    Symbol::Nonterminal("WhileStatement")
}

/// The nonterminal `ReadStatement`.
pub fn nt_read_statement() -> (r: ToyCSymbol)
    ensures
        r == Symbol::<Token, &'static str>::Nonterminal("ReadStatement"),
{
    Symbol::Nonterminal("ReadStatement")
}

/// The nonterminal `ReadStatement'`.
pub fn nt_read_statement_() -> (r: ToyCSymbol)
    ensures
        r == Symbol::<Token, &'static str>::Nonterminal("ReadStatement'"),
{
    Symbol::Nonterminal("ReadStatement'")
}

/// The nonterminal `WriteStatement`.
pub fn nt_write_statement() -> (r: ToyCSymbol)
    ensures
        r == Symbol::<Token, &'static str>::Nonterminal("WriteStatement"),
{
    Symbol::Nonterminal("WriteStatement")
}

/// The nonterminal `NewLineStatement`.
pub fn nt_newline_statement() -> (r: ToyCSymbol)
    ensures
        r == Symbol::<Token, &'static str>::Nonterminal("NewLineStatement"),
{
    Symbol::Nonterminal("NewLineStatement")
}

/// The nonterminal `Expression`.
pub fn nt_expression() -> (r: ToyCSymbol)
    ensures
        r == Symbol::<Token, &'static str>::Nonterminal("Expression"),
{
    Symbol::Nonterminal("Expression")
}

/// The nonterminal `Expression'`.
pub fn nt_expression_() -> (r: ToyCSymbol)
    ensures
        r == Symbol::<Token, &'static str>::Nonterminal("Expression'"),
{
    Symbol::Nonterminal("Expression'")
}

/// The nonterminal `RelopExpression`.
pub fn nt_relop_expression() -> (r: ToyCSymbol)
    ensures
        r == Symbol::<Token, &'static str>::Nonterminal("RelopExpression"),
{
    Symbol::Nonterminal("RelopExpression")
}

/// The nonterminal `RelopExpression'`.
pub fn nt_relop_expression_() -> (r: ToyCSymbol)
    ensures
        r == Symbol::<Token, &'static str>::Nonterminal("RelopExpression'"),
{
    Symbol::Nonterminal("RelopExpression'")
}

/// The nonterminal `SimpleExpression`.
pub fn nt_simple_expression() -> (r: ToyCSymbol)
    ensures
        r == Symbol::<Token, &'static str>::Nonterminal("SimpleExpression"),
{
    Symbol::Nonterminal("SimpleExpression")
}

/// The nonterminal `SimpleExpression'`.
pub fn nt_simple_expression_() -> (r: ToyCSymbol)
    ensures
        r == Symbol::<Token, &'static str>::Nonterminal("SimpleExpression'"),
{
    Symbol::Nonterminal("SimpleExpression'")
}

/// The nonterminal `Term`.
pub fn nt_term() -> (r: ToyCSymbol)
    ensures
        r == Symbol::<Token, &'static str>::Nonterminal("Term"),
{
    Symbol::Nonterminal("Term")
}

/// The nonterminal `Term'`.
pub fn nt_term_() -> (r: ToyCSymbol)
    ensures
        r == Symbol::<Token, &'static str>::Nonterminal("Term'"),
{
    Symbol::Nonterminal("Term'")
}

/// The nonterminal `Primary`.
pub fn nt_primary() -> (r: ToyCSymbol)
    ensures
        r == Symbol::<Token, &'static str>::Nonterminal("Primary"),
{
    Symbol::Nonterminal("Primary")
}

/// The nonterminal `Primary'`.
pub fn nt_primary_() -> (r: ToyCSymbol)
    ensures
        r == Symbol::<Token, &'static str>::Nonterminal("Primary'"),
{
    Symbol::Nonterminal("Primary'")
}

/// The nonterminal `FunctionCall`.
pub fn nt_function_call() -> (r: ToyCSymbol)
    ensures
        r == Symbol::<Token, &'static str>::Nonterminal("FunctionCall"),
{
    Symbol::Nonterminal("FunctionCall")
}

/// The nonterminal `FunctionCall'`.
pub fn nt_function_call_() -> (r: ToyCSymbol)
    ensures
        r == Symbol::<Token, &'static str>::Nonterminal("FunctionCall'"),
{
    Symbol::Nonterminal("FunctionCall'")
}

/// The nonterminal `ActualParameters`.
pub fn nt_actual_parameters() -> (r: ToyCSymbol)
    ensures
        r == Symbol::<Token, &'static str>::Nonterminal("ActualParameters"),
{
    Symbol::Nonterminal("ActualParameters")
}

/// The nonterminal `ActualParameters'`.
pub fn nt_actual_parameters_() -> (r: ToyCSymbol)
    ensures
        r == Symbol::<Token, &'static str>::Nonterminal("ActualParameters'"),
{
    Symbol::Nonterminal("ActualParameters'")
}

} // verus!
