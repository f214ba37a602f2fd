//! The tokens of the SQL dialect.
use vstd::prelude::*;

verus! {

/// A lexical token.
#[derive(Debug, Clone, PartialEq)]
pub enum Token {
    // keywords
    Create,
    Table,
    Insert,
    Into,
    Values,
    Select,
    From,
    Where,
    And,
    Or,
    Not,
    Null,
    Update,
    SetKw,
    Delete,
    Order,
    By,
    Asc,
    Desc,
    Limit,
    Join,
    Inner,
    Left,
    Right,
    On,
    // identifiers and literals
    Ident(String),
    IntLiteral(i64),
    TextLiteral(String),
    // punctuation
    LParen,
    RParen,
    Comma,
    Semicolon,
    Star,
    Dot,
    // operators
    Eq,
    NotEq,
    Lt,
    Lte,
    Gt,
    Gte,
}

/// The mathematical value of a token: texts are character sequences.
pub enum TokenV {
    Create,
    Table,
    Insert,
    Into,
    Values,
    Select,
    From,
    Where,
    And,
    Or,
    Not,
    Null,
    Update,
    SetKw,
    Delete,
    Order,
    By,
    Asc,
    Desc,
    Limit,
    Join,
    Inner,
    Left,
    Right,
    On,
    Ident(Seq<char>),
    IntLiteral(i64),
    TextLiteral(Seq<char>),
    LParen,
    RParen,
    Comma,
    Semicolon,
    Star,
    Dot,
    Eq,
    NotEq,
    Lt,
    Lte,
    Gt,
    Gte,
}

impl View for Token {
    type V = TokenV;

    open spec fn view(&self) -> TokenV {
        match self {
            Token::Create => TokenV::Create,
            Token::Table => TokenV::Table,
            Token::Insert => TokenV::Insert,
            Token::Into => TokenV::Into,
            Token::Values => TokenV::Values,
            Token::Select => TokenV::Select,
            Token::From => TokenV::From,
            Token::Where => TokenV::Where,
            Token::And => TokenV::And,
            Token::Or => TokenV::Or,
            Token::Not => TokenV::Not,
            Token::Null => TokenV::Null,
            Token::Update => TokenV::Update,
            Token::SetKw => TokenV::SetKw,
            Token::Delete => TokenV::Delete,
            Token::Order => TokenV::Order,
            Token::By => TokenV::By,
            Token::Asc => TokenV::Asc,
            Token::Desc => TokenV::Desc,
            Token::Limit => TokenV::Limit,
            Token::Join => TokenV::Join,
            Token::Inner => TokenV::Inner,
            Token::Left => TokenV::Left,
            Token::Right => TokenV::Right,
            Token::On => TokenV::On,
            Token::Ident(s) => TokenV::Ident(s@),
            Token::IntLiteral(n) => TokenV::IntLiteral(*n),
            Token::TextLiteral(s) => TokenV::TextLiteral(s@),
            Token::LParen => TokenV::LParen,
            Token::RParen => TokenV::RParen,
            Token::Comma => TokenV::Comma,
            Token::Semicolon => TokenV::Semicolon,
            Token::Star => TokenV::Star,
            Token::Dot => TokenV::Dot,
            Token::Eq => TokenV::Eq,
            Token::NotEq => TokenV::NotEq,
            Token::Lt => TokenV::Lt,
            Token::Lte => TokenV::Lte,
            Token::Gt => TokenV::Gt,
            Token::Gte => TokenV::Gte,
        }
    }
}

/// The values of a sequence of tokens.
pub open spec fn tokens_view(ts: Seq<Token>) -> Seq<TokenV> {
    ts.map_values(|t: Token| t@)
}

impl Token {
    /// A copy of the token.
    pub fn duplicate(&self) -> (r: Token)
        ensures
            r@ == self@,
    {
        match self {
            Token::Create => Token::Create,
            Token::Table => Token::Table,
            Token::Insert => Token::Insert,
            Token::Into => Token::Into,
            Token::Values => Token::Values,
            Token::Select => Token::Select,
            Token::From => Token::From,
            Token::Where => Token::Where,
            Token::And => Token::And,
            Token::Or => Token::Or,
            Token::Not => Token::Not,
            Token::Null => Token::Null,
            Token::Update => Token::Update,
            Token::SetKw => Token::SetKw,
            Token::Delete => Token::Delete,
            Token::Order => Token::Order,
            Token::By => Token::By,
            Token::Asc => Token::Asc,
            Token::Desc => Token::Desc,
            Token::Limit => Token::Limit,
            Token::Join => Token::Join,
            Token::Inner => Token::Inner,
            Token::Left => Token::Left,
            Token::Right => Token::Right,
            Token::On => Token::On,
            Token::Ident(s) => Token::Ident(s.clone()),
            Token::IntLiteral(n) => Token::IntLiteral(*n),
            Token::TextLiteral(s) => Token::TextLiteral(s.clone()),
            Token::LParen => Token::LParen,
            Token::RParen => Token::RParen,
            Token::Comma => Token::Comma,
            Token::Semicolon => Token::Semicolon,
            Token::Star => Token::Star,
            Token::Dot => Token::Dot,
            Token::Eq => Token::Eq,
            Token::NotEq => Token::NotEq,
            Token::Lt => Token::Lt,
            Token::Lte => Token::Lte,
            Token::Gt => Token::Gt,
            Token::Gte => Token::Gte,
        }
    }
}

} // verus!
