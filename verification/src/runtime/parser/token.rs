//! The tokens of a program.

use vstd::prelude::*;
use vstd::string::*;

verus! {

/// A token. [`Token::Error`] stands for text that is no token.
#[allow(non_camel_case_types)]
#[derive(Debug, Clone, PartialEq)]
pub enum Token {
    StrLit(String),
    Ident(String),
    Number(i32),
    TRUE,
    FALSE,
    Minus,
    Plus,
    Asterisk,
    Div,
    Assgn,
    Fn_Assgn,
    EQ_EQ,
    LT,
    GT,
    AND_AND,
    OR_OR,
    NOT_NOT,
    LParen,
    RParen,
    LBrace,
    RBrace,
    LSquare,
    RSquare,
    Semicolon,
    Comma,
    Colon,
    Dot,
    SERVICE,
    TEST_KW,
    DO_KW,
    ASSERT_KW,
    IMPORT_KW,
    VAR_KW,
    PUB_KW,
    DEF_KW,
    TABLE_KW,
    INSERT_KW,
    SELECT_KW,
    FROM_KW,
    WHERE_KW,
    INTO_KW,
    FOLD_KW,
    ACTION_KW,
    FN_KW,
    THEN_KW,
    IF_KW,
    ELSE_KW,
    NUMBER_KW,
    STRING_KW,
    BOOL_KW,
    LET_KW,
    WATCH_KW,
    Error,
}

/// The model of a [`Token`].
#[allow(non_camel_case_types)]
pub enum TokenM {
    StrLit(Seq<char>),
    Ident(Seq<char>),
    Number(i32),
    TRUE,
    FALSE,
    Minus,
    Plus,
    Asterisk,
    Div,
    Assgn,
    Fn_Assgn,
    EQ_EQ,
    LT,
    GT,
    AND_AND,
    OR_OR,
    NOT_NOT,
    LParen,
    RParen,
    LBrace,
    RBrace,
    LSquare,
    RSquare,
    Semicolon,
    Comma,
    Colon,
    Dot,
    SERVICE,
    TEST_KW,
    DO_KW,
    ASSERT_KW,
    IMPORT_KW,
    VAR_KW,
    PUB_KW,
    DEF_KW,
    TABLE_KW,
    INSERT_KW,
    SELECT_KW,
    FROM_KW,
    WHERE_KW,
    INTO_KW,
    FOLD_KW,
    ACTION_KW,
    FN_KW,
    THEN_KW,
    IF_KW,
    ELSE_KW,
    NUMBER_KW,
    STRING_KW,
    BOOL_KW,
    LET_KW,
    WATCH_KW,
    Error,
}

impl DeepView for Token {
    type V = TokenM;

    open spec fn deep_view(&self) -> TokenM {
        match *self {
            Token::StrLit(s) => TokenM::StrLit(s@),
            Token::Ident(s) => TokenM::Ident(s@),
            Token::Number(n) => TokenM::Number(n),
            Token::TRUE => TokenM::TRUE,
            Token::FALSE => TokenM::FALSE,
            Token::Minus => TokenM::Minus,
            Token::Plus => TokenM::Plus,
            Token::Asterisk => TokenM::Asterisk,
            Token::Div => TokenM::Div,
            Token::Assgn => TokenM::Assgn,
            Token::Fn_Assgn => TokenM::Fn_Assgn,
            Token::EQ_EQ => TokenM::EQ_EQ,
            Token::LT => TokenM::LT,
            Token::GT => TokenM::GT,
            Token::AND_AND => TokenM::AND_AND,
            Token::OR_OR => TokenM::OR_OR,
            Token::NOT_NOT => TokenM::NOT_NOT,
            Token::LParen => TokenM::LParen,
            Token::RParen => TokenM::RParen,
            Token::LBrace => TokenM::LBrace,
            Token::RBrace => TokenM::RBrace,
            Token::LSquare => TokenM::LSquare,
            Token::RSquare => TokenM::RSquare,
            Token::Semicolon => TokenM::Semicolon,
            Token::Comma => TokenM::Comma,
            Token::Colon => TokenM::Colon,
            Token::Dot => TokenM::Dot,
            Token::SERVICE => TokenM::SERVICE,
            Token::TEST_KW => TokenM::TEST_KW,
            Token::DO_KW => TokenM::DO_KW,
            Token::ASSERT_KW => TokenM::ASSERT_KW,
            Token::IMPORT_KW => TokenM::IMPORT_KW,
            Token::VAR_KW => TokenM::VAR_KW,
            Token::PUB_KW => TokenM::PUB_KW,
            Token::DEF_KW => TokenM::DEF_KW,
            Token::TABLE_KW => TokenM::TABLE_KW,
            Token::INSERT_KW => TokenM::INSERT_KW,
            Token::SELECT_KW => TokenM::SELECT_KW,
            Token::FROM_KW => TokenM::FROM_KW,
            Token::WHERE_KW => TokenM::WHERE_KW,
            Token::INTO_KW => TokenM::INTO_KW,
            Token::FOLD_KW => TokenM::FOLD_KW,
            Token::ACTION_KW => TokenM::ACTION_KW,
            Token::FN_KW => TokenM::FN_KW,
            Token::THEN_KW => TokenM::THEN_KW,
            Token::IF_KW => TokenM::IF_KW,
            Token::ELSE_KW => TokenM::ELSE_KW,
            Token::NUMBER_KW => TokenM::NUMBER_KW,
            Token::STRING_KW => TokenM::STRING_KW,
            Token::BOOL_KW => TokenM::BOOL_KW,
            Token::LET_KW => TokenM::LET_KW,
            Token::WATCH_KW => TokenM::WATCH_KW,
            Token::Error => TokenM::Error,
        }
    }
}

/// The number of a kind of token.
pub open spec fn kind(t: TokenM) -> nat {
    match t {
        TokenM::StrLit(_) => 0,
        TokenM::Ident(_) => 1,
        TokenM::Number(_) => 2,
        TokenM::TRUE => 3,
        TokenM::FALSE => 4,
        TokenM::Minus => 5,
        TokenM::Plus => 6,
        TokenM::Asterisk => 7,
        TokenM::Div => 8,
        TokenM::Assgn => 9,
        TokenM::Fn_Assgn => 10,
        TokenM::EQ_EQ => 11,
        TokenM::LT => 12,
        TokenM::GT => 13,
        TokenM::AND_AND => 14,
        TokenM::OR_OR => 15,
        TokenM::NOT_NOT => 16,
        TokenM::LParen => 17,
        TokenM::RParen => 18,
        TokenM::LBrace => 19,
        TokenM::RBrace => 20,
        TokenM::LSquare => 21,
        TokenM::RSquare => 22,
        TokenM::Semicolon => 23,
        TokenM::Comma => 24,
        TokenM::Colon => 25,
        TokenM::Dot => 26,
        TokenM::SERVICE => 27,
        TokenM::TEST_KW => 28,
        TokenM::DO_KW => 29,
        TokenM::ASSERT_KW => 30,
        TokenM::IMPORT_KW => 31,
        TokenM::VAR_KW => 32,
        TokenM::PUB_KW => 33,
        TokenM::DEF_KW => 34,
        TokenM::TABLE_KW => 35,
        TokenM::INSERT_KW => 36,
        TokenM::SELECT_KW => 37,
        TokenM::FROM_KW => 38,
        TokenM::WHERE_KW => 39,
        TokenM::INTO_KW => 40,
        TokenM::FOLD_KW => 41,
        TokenM::ACTION_KW => 42,
        TokenM::FN_KW => 43,
        TokenM::THEN_KW => 44,
        TokenM::IF_KW => 45,
        TokenM::ELSE_KW => 46,
        TokenM::NUMBER_KW => 47,
        TokenM::STRING_KW => 48,
        TokenM::BOOL_KW => 49,
        TokenM::LET_KW => 50,
        TokenM::WATCH_KW => 51,
        TokenM::Error => 52,
    }
}

/// Whether a token has no other token of its kind.
pub open spec fn is_fixed(t: TokenM) -> bool {
    !(t is StrLit) && !(t is Ident) && !(t is Number)
}

/// A fixed token is known by its kind.
pub proof fn lemma_fixed(a: TokenM, b: TokenM)
    requires
        is_fixed(a),
        kind(a) == kind(b),
    ensures
        a == b,
{
}

impl Token {
    fn kind(&self) -> (r: u8)
        ensures
            r as nat == kind(self.deep_view()),
    {
        match self {
            Token::StrLit(_) => 0,
            Token::Ident(_) => 1,
            Token::Number(_) => 2,
            Token::TRUE => 3,
            Token::FALSE => 4,
            Token::Minus => 5,
            Token::Plus => 6,
            Token::Asterisk => 7,
            Token::Div => 8,
            Token::Assgn => 9,
            Token::Fn_Assgn => 10,
            Token::EQ_EQ => 11,
            Token::LT => 12,
            Token::GT => 13,
            Token::AND_AND => 14,
            Token::OR_OR => 15,
            Token::NOT_NOT => 16,
            Token::LParen => 17,
            Token::RParen => 18,
            Token::LBrace => 19,
            Token::RBrace => 20,
            Token::LSquare => 21,
            Token::RSquare => 22,
            Token::Semicolon => 23,
            Token::Comma => 24,
            Token::Colon => 25,
            Token::Dot => 26,
            Token::SERVICE => 27,
            Token::TEST_KW => 28,
            Token::DO_KW => 29,
            Token::ASSERT_KW => 30,
            Token::IMPORT_KW => 31,
            Token::VAR_KW => 32,
            Token::PUB_KW => 33,
            Token::DEF_KW => 34,
            Token::TABLE_KW => 35,
            Token::INSERT_KW => 36,
            Token::SELECT_KW => 37,
            Token::FROM_KW => 38,
            Token::WHERE_KW => 39,
            Token::INTO_KW => 40,
            Token::FOLD_KW => 41,
            Token::ACTION_KW => 42,
            Token::FN_KW => 43,
            Token::THEN_KW => 44,
            Token::IF_KW => 45,
            Token::ELSE_KW => 46,
            Token::NUMBER_KW => 47,
            Token::STRING_KW => 48,
            Token::BOOL_KW => 49,
            Token::LET_KW => 50,
            Token::WATCH_KW => 51,
            Token::Error => 52,
        }
    }

    /// Whether the token is the fixed token `t`.
    pub fn is(&self, t: &Token) -> (r: bool)
        requires
            is_fixed(t.deep_view()),
        ensures
            r == (self.deep_view() == t.deep_view()),
    {
        let r = self.kind() == t.kind();
        proof {
            if r {
                lemma_fixed(t.deep_view(), self.deep_view());
            }
        }
        r
    }
}

/// The token that a word is: a keyword, or an identifier.
pub open spec fn word_token(w: Seq<char>) -> TokenM {
    if w == "true"@ {
        TokenM::TRUE
    } else if w == "false"@ {
        TokenM::FALSE
    } else if w == "service"@ {
        TokenM::SERVICE
    } else if w == "do"@ {
        TokenM::DO_KW
    } else if w == "assert"@ {
        TokenM::ASSERT_KW
    } else if w == "import"@ {
        TokenM::IMPORT_KW
    } else if w == "var"@ {
        TokenM::VAR_KW
    } else if w == "pub"@ {
        TokenM::PUB_KW
    } else if w == "def"@ {
        TokenM::DEF_KW
    } else if w == "table"@ {
        TokenM::TABLE_KW
    } else if w == "insert"@ {
        TokenM::INSERT_KW
    } else if w == "select"@ {
        TokenM::SELECT_KW
    } else if w == "from"@ {
        TokenM::FROM_KW
    } else if w == "where"@ {
        TokenM::WHERE_KW
    } else if w == "into"@ {
        TokenM::INTO_KW
    } else if w == "fold"@ {
        TokenM::FOLD_KW
    } else if w == "action"@ {
        TokenM::ACTION_KW
    } else if w == "fn"@ {
        TokenM::FN_KW
    } else if w == "then"@ {
        TokenM::THEN_KW
    } else if w == "if"@ {
        TokenM::IF_KW
    } else if w == "else"@ {
        TokenM::ELSE_KW
    } else if w == "number"@ {
        TokenM::NUMBER_KW
    } else if w == "string"@ {
        TokenM::STRING_KW
    } else if w == "bool"@ {
        TokenM::BOOL_KW
    } else if w == "let"@ {
        TokenM::LET_KW
    } else if w == "watch"@ {
        TokenM::WATCH_KW
    } else {
        TokenM::Ident(w)
    }
}

/// The token that a word is.
pub fn token_of_word(w: String) -> (r: Token)
    ensures
        r.deep_view() == word_token(w@),
{
    let s = w.as_str();
    if crate::runtime::text::same_text(s, "true") {
        Token::TRUE
    } else if crate::runtime::text::same_text(s, "false") {
        Token::FALSE
    } else if crate::runtime::text::same_text(s, "service") {
        Token::SERVICE
    } else if crate::runtime::text::same_text(s, "do") {
        Token::DO_KW
    } else if crate::runtime::text::same_text(s, "assert") {
        Token::ASSERT_KW
    } else if crate::runtime::text::same_text(s, "import") {
        Token::IMPORT_KW
    } else if crate::runtime::text::same_text(s, "var") {
        Token::VAR_KW
    } else if crate::runtime::text::same_text(s, "pub") {
        Token::PUB_KW
    } else if crate::runtime::text::same_text(s, "def") {
        Token::DEF_KW
    } else if crate::runtime::text::same_text(s, "table") {
        Token::TABLE_KW
    } else if crate::runtime::text::same_text(s, "insert") {
        Token::INSERT_KW
    } else if crate::runtime::text::same_text(s, "select") {
        Token::SELECT_KW
    } else if crate::runtime::text::same_text(s, "from") {
        Token::FROM_KW
    } else if crate::runtime::text::same_text(s, "where") {
        Token::WHERE_KW
    } else if crate::runtime::text::same_text(s, "into") {
        Token::INTO_KW
    } else if crate::runtime::text::same_text(s, "fold") {
        Token::FOLD_KW
    } else if crate::runtime::text::same_text(s, "action") {
        Token::ACTION_KW
    } else if crate::runtime::text::same_text(s, "fn") {
        Token::FN_KW
    } else if crate::runtime::text::same_text(s, "then") {
        Token::THEN_KW
    } else if crate::runtime::text::same_text(s, "if") {
        Token::IF_KW
    } else if crate::runtime::text::same_text(s, "else") {
        Token::ELSE_KW
    } else if crate::runtime::text::same_text(s, "number") {
        Token::NUMBER_KW
    } else if crate::runtime::text::same_text(s, "string") {
        Token::STRING_KW
    } else if crate::runtime::text::same_text(s, "bool") {
        Token::BOOL_KW
    } else if crate::runtime::text::same_text(s, "let") {
        Token::LET_KW
    } else if crate::runtime::text::same_text(s, "watch") {
        Token::WATCH_KW
    } else {
        Token::Ident(w)
    }
}

} // verus!
