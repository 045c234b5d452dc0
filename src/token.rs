use vstd::prelude::*;

verus! {

/// Reserved words of the query language.
///
/// Only `Select` is recognised by the scanner today; `Insert` and `Delete`
/// are kept so that the grammar can grow.
#[derive(Debug, Clone, Copy, PartialEq, Eq, Structural)]
pub enum Keyword {
    Select,
    Insert,
    Delete,
}

/// Logical, arithmetic, comparison and punctuation symbols.
#[derive(Debug, Clone, Copy, PartialEq, Eq, Structural)]
pub enum Op {
    // logical
    And,
    Or,
    Not,
    // arithmetic
    Add,
    Sub,
    Mul,
    Div,
    // comparison
    Eq,
    Neq,
    Lt,
    Gt,
    Lte,
    Gte,
    // punctuation
    Comma,
    LParen,
    RParen,
    Colon,
}

/// Errors that abort a scan.
#[derive(Debug, Clone, Copy, PartialEq, Eq, Structural)]
pub enum LexerError {
    /// A character, or an operator text, that no recognition rule accepts.
    UnrecognizedToken,
    /// Numeral text that does not read as a decimal number.
    InvalidNumberFormat,
}

/// One lexical unit.
///
/// `Number` carries the numeral exactly as written (digits with at most one
/// `.`); reading it as a double is left to the consumer, so that the value is
/// the one its float parser gives for that text.
#[derive(Debug, PartialEq)]
pub enum Token {
    Keyword(Keyword),
    Operator(Op),
    Identifier(String),
    Literal(String),
    Comment(String),
    Number(String),
}

/// What a [`Token`] holds, with its text as a sequence of characters.
pub enum TokenView {
    Keyword(Keyword),
    Operator(Op),
    Identifier(Seq<char>),
    Literal(Seq<char>),
    Comment(Seq<char>),
    Number(Seq<char>),
}

impl View for Token {
    type V = TokenView;

    open spec fn view(&self) -> TokenView {
        match self {
            Token::Keyword(k) => TokenView::Keyword(*k),
            Token::Operator(o) => TokenView::Operator(*o),
            Token::Identifier(s) => TokenView::Identifier(s@),
            Token::Literal(s) => TokenView::Literal(s@),
            Token::Comment(s) => TokenView::Comment(s@),
            Token::Number(s) => TokenView::Number(s@),
        }
    }
}

/// The operator that a single character stands for, if any.
pub open spec fn op_of_char(c: char) -> Option<Op> {
    if c == '+' {
        Some(Op::Add)
    } else if c == '-' {
        Some(Op::Sub)
    } else if c == '*' {
        Some(Op::Mul)
    } else if c == '/' {
        Some(Op::Div)
    } else if c == '=' {
        Some(Op::Eq)
    } else if c == ',' {
        Some(Op::Comma)
    } else if c == '(' {
        Some(Op::LParen)
    } else if c == ')' {
        Some(Op::RParen)
    } else if c == ':' {
        Some(Op::Colon)
    } else {
        None
    }
}

/// The comparison or negation operator written as `s`, if any.
pub open spec fn op_of_text(s: Seq<char>) -> Option<Op> {
    if s == seq!['!', '='] || s == seq!['<', '>'] {
        Some(Op::Neq)
    } else if s == seq!['<', '='] {
        Some(Op::Lte)
    } else if s == seq!['>', '='] {
        Some(Op::Gte)
    } else if s == seq!['<'] {
        Some(Op::Lt)
    } else if s == seq!['>'] {
        Some(Op::Gt)
    } else if s == seq!['!'] {
        Some(Op::Not)
    } else {
        None
    }
}

impl Op {
    pub fn from_char(c: char) -> (r: Option<Op>)
        ensures
            r == op_of_char(c),
    {
        match c {
            '+' => Some(Op::Add),
            '-' => Some(Op::Sub),
            '*' => Some(Op::Mul),
            '/' => Some(Op::Div),
            '=' => Some(Op::Eq),
            ',' => Some(Op::Comma),
            '(' => Some(Op::LParen),
            ')' => Some(Op::RParen),
            ':' => Some(Op::Colon),
            _ => None,
        }
    }

    pub fn from_str(s: &str) -> (r: Option<Op>)
        ensures
            r == op_of_text(s@),
    {
        let n: usize = s.unicode_len();
        if n == 1 {
            let a = s.get_char(0);
            assert(s@ == seq![a]);
            match a {
                '<' => Some(Op::Lt),
                '>' => Some(Op::Gt),
                '!' => Some(Op::Not),
                _ => None,
            }
        } else if n == 2 {
            let a = s.get_char(0);
            let b = s.get_char(1);
            assert(s@ == seq![a, b]);
            if (a == '!' && b == '=') || (a == '<' && b == '>') {
                Some(Op::Neq)
            } else if a == '<' && b == '=' {
                Some(Op::Lte)
            } else if a == '>' && b == '=' {
                Some(Op::Gte)
            } else {
                None
            }
        } else {
            None
        }
    }
}

} // verus!
