//! How tokens are written as text, and that such text is split into them again.

use crate::runtime::ast::display;
use crate::runtime::ast::model::{BinOpM, ExprM, StmtM, UnOpM, ValueM};
use crate::runtime::interner::Symbol;
use crate::runtime::interpreter::evaluator::ErrM;
use crate::runtime::interpreter::laws;
use crate::runtime::manager::model::{EnvM, World};
use crate::runtime::manager::semantics;
use crate::runtime::parser;
use crate::runtime::parser::grammar;
use crate::runtime::parser::grammar::Names;
use crate::runtime::parser::lex;
use crate::runtime::parser::lex::SpannedM;
use crate::runtime::parser::reading;
use crate::runtime::parser::spelling;
use crate::runtime::parser::token;
use crate::runtime::parser::token::TokenM;
use crate::runtime::text;
use vstd::prelude::*;

verus! {

/// How a token is written. The largest number that can be written stands for the
/// smallest value: a minus sign in front of it is a token of its own.
pub open spec fn text_of(t: TokenM) -> Seq<char> {
    match t {
        TokenM::StrLit(s) => seq!['"'] + s + seq!['"'],
        TokenM::Ident(s) => s,
        TokenM::Number(n) => if n == i32::MIN {
            text::decimal(2147483648)
        } else {
            text::decimal(n as nat)
        },
        TokenM::TRUE => "true"@,
        TokenM::FALSE => "false"@,
        TokenM::Minus => "-"@,
        TokenM::Plus => "+"@,
        TokenM::Asterisk => "*"@,
        TokenM::Div => "/"@,
        TokenM::Assgn => "="@,
        TokenM::Fn_Assgn => "=>"@,
        TokenM::EQ_EQ => "=="@,
        TokenM::LT => "<"@,
        TokenM::GT => ">"@,
        TokenM::AND_AND => "&&"@,
        TokenM::OR_OR => "||"@,
        TokenM::NOT_NOT => "!"@,
        TokenM::LParen => "("@,
        TokenM::RParen => ")"@,
        TokenM::LBrace => "{"@,
        TokenM::RBrace => "}"@,
        TokenM::LSquare => "["@,
        TokenM::RSquare => "]"@,
        TokenM::Semicolon => ";"@,
        TokenM::Comma => ","@,
        TokenM::Colon => ":"@,
        TokenM::Dot => "."@,
        TokenM::SERVICE => "service"@,
        TokenM::TEST_KW => "@test"@,
        TokenM::DO_KW => "do"@,
        TokenM::ASSERT_KW => "assert"@,
        TokenM::IMPORT_KW => "import"@,
        TokenM::VAR_KW => "var"@,
        TokenM::PUB_KW => "pub"@,
        TokenM::DEF_KW => "def"@,
        TokenM::TABLE_KW => "table"@,
        TokenM::INSERT_KW => "insert"@,
        TokenM::SELECT_KW => "select"@,
        TokenM::FROM_KW => "from"@,
        TokenM::WHERE_KW => "where"@,
        TokenM::INTO_KW => "into"@,
        TokenM::FOLD_KW => "fold"@,
        TokenM::ACTION_KW => "action"@,
        TokenM::FN_KW => "fn"@,
        TokenM::THEN_KW => "then"@,
        TokenM::IF_KW => "if"@,
        TokenM::ELSE_KW => "else"@,
        TokenM::NUMBER_KW => "number"@,
        TokenM::STRING_KW => "string"@,
        TokenM::BOOL_KW => "bool"@,
        TokenM::LET_KW => "let"@,
        TokenM::WATCH_KW => "watch"@,
        TokenM::Error => seq![],
    }
}

/// Whether a character is a letter or an underscore.
pub open spec fn letter(c: char) -> bool {
    ('A' <= c && c <= 'Z') || ('a' <= c && c <= 'z') || c == '_'
}

/// Whether a text has the form of a word.
pub open spec fn wordlike(s: Seq<char>) -> bool {
    &&& s.len() > 0
    &&& letter(s[0])
    &&& forall|i: int|
        0 <= i < s.len() ==> letter(#[trigger] s[i]) || ('0' <= s[i] && s[i] <= '9')
}

/// Whether a token can be written: a string has no quote in it, a number is not
/// below zero, and a name is a word that is no keyword.
pub open spec fn writable(t: TokenM) -> bool {
    match t {
        TokenM::StrLit(s) => !s.contains('"'),
        TokenM::Number(n) => n >= 0 || n == i32::MIN,
        TokenM::Ident(s) => wordlike(s) && forall|k: TokenM| #[trigger]
            token::is_fixed(k) ==> text_of(k) != s,
        TokenM::Error => false,
        _ => true,
    }
}

/// Whether a text stands in another at a place, with its end or a space behind
/// it.
pub open spec fn alone_at(s: Seq<char>, i: nat, w: Seq<char>) -> bool {
    &&& i + w.len() <= s.len()
    &&& forall|k: int| 0 <= k < w.len() ==> #[trigger] s[i + k] == w[k]
    &&& i + w.len() < s.len() ==> s[i + w.len() as int] == ' '
}

/// Where a word ends.
proof fn lemma_word_end(s: Seq<char>, i: nat, j: nat)
    requires
        i <= j <= s.len(),
        forall|k: int| i <= k < j ==> lex::in_word(#[trigger] s[k]),
        j < s.len() ==> !lex::in_word(s[j as int]),
    ensures
        lex::word_end(s, i) == j,
    decreases j - i,
{
    if i < j {
        assert(lex::in_word(s[i as int]));
        lemma_word_end(s, i + 1, j);
    }
}

/// Where digits end.
proof fn lemma_digits_end(s: Seq<char>, i: nat, j: nat)
    requires
        i <= j <= s.len(),
        forall|k: int| i <= k < j ==> lex::is_digit(#[trigger] s[k]),
        j < s.len() ==> !lex::is_digit(s[j as int]),
    ensures
        lex::digits_end(s, i) == j,
    decreases j - i,
{
    if i < j {
        assert(lex::is_digit(s[i as int]));
        lemma_digits_end(s, i + 1, j);
    }
}

/// Where a string ends.
proof fn lemma_quote(s: Seq<char>, i: nat, j: nat)
    requires
        i <= j < s.len(),
        forall|k: int| i <= k < j ==> #[trigger] s[k] != '"',
        s[j as int] == '"',
    ensures
        lex::quote_place(s, i) == j,
    decreases j - i,
{
    if i < j {
        assert(s[i as int] != '"');
        lemma_quote(s, i + 1, j);
    }
}

/// A numeral is made of digits, begins with zero only where it is that of zero,
/// and stands for its number.
pub proof fn lemma_decimal(n: nat)
    ensures
        text::decimal(n).len() > 0,
        forall|k: int|
            0 <= k < text::decimal(n).len() ==> lex::is_digit(#[trigger] text::decimal(n)[k]),
        n > 0 ==> text::decimal(n)[0] != '0',
        n == 0 ==> text::decimal(n) == seq!['0'],
        lex::number_of(text::decimal(n)) == n,
    decreases n,
{
    let d = text::decimal(n);
    if n >= 10 {
        let h = text::decimal(n / 10);
        lemma_decimal(n / 10);
        assert(d == h.push(text::digit(n % 10)));
        assert(d.drop_last() =~= h);
        assert(d.last() as nat - '0' as nat == n % 10);
        assert forall|k: int| 0 <= k < d.len() implies lex::is_digit(#[trigger] d[k]) by {
            if k < h.len() {
                assert(lex::is_digit(h[k]));
            }
        }
        assert(d[0] == h[0]);
    } else {
        assert(d == seq![text::digit(n)]);
        assert(d.drop_last() =~= seq![]);
        assert(d.last() as nat - '0' as nat == n);
        assert(lex::number_of(d.drop_last()) == 0);
    }
}

/// A numeral is lexed.
proof fn lemma_number(s: Seq<char>, i: nat, n: nat)
    requires
        n <= 2147483648,
        i + text::decimal(n).len() <= s.len(),
        forall|k: int|
            0 <= k < text::decimal(n).len() ==> #[trigger] s[i + k] == text::decimal(n)[k],
        i + text::decimal(n).len() < s.len() ==> !lex::is_digit(
            s[i + text::decimal(n).len() as int],
        ),
    ensures
        lex::token_at(s, i) == (
            Some(
                TokenM::Number(
                    if n == 2147483648 {
                        i32::MIN
                    } else {
                        n as i32
                    },
                ),
            ),
            i + text::decimal(n).len(),
        ),
{
    let d = text::decimal(n);
    lemma_decimal(n);
    assert(s[i + 0int] == d[0]);
    assert(lex::is_digit(d[0]));
    let j = i + d.len();
    lemma_cut(s, i, d);
    assert forall|k: int| i <= k < j implies lex::is_digit(#[trigger] s[k]) by {
        assert(s[i + (k - i)] == d[k - i]);
    }
    lemma_digits_end(s, i, j);
}

/// The keywords are words.
proof fn lemma_keyword(t: TokenM)
    requires
        token::is_fixed(t),
        writable(t),
        text_of(t).len() > 0,
        letter(text_of(t)[0]),
    ensures
        token::word_token(text_of(t)) == t,
        wordlike(text_of(t)),
{
    lemma_keyword_token(t);
    match t {
        TokenM::TRUE => {
            reveal_strlit("true");
            assert(text_of(t) =~= seq!['t', 'r', 'u', 'e']);
        },
        TokenM::FALSE => {
            reveal_strlit("false");
            assert(text_of(t) =~= seq!['f', 'a', 'l', 's', 'e']);
        },
        TokenM::SERVICE => {
            reveal_strlit("service");
            assert(text_of(t) =~= seq!['s', 'e', 'r', 'v', 'i', 'c', 'e']);
        },
        TokenM::DO_KW => {
            reveal_strlit("do");
            assert(text_of(t) =~= seq!['d', 'o']);
        },
        TokenM::ASSERT_KW => {
            reveal_strlit("assert");
            assert(text_of(t) =~= seq!['a', 's', 's', 'e', 'r', 't']);
        },
        TokenM::IMPORT_KW => {
            reveal_strlit("import");
            assert(text_of(t) =~= seq!['i', 'm', 'p', 'o', 'r', 't']);
        },
        TokenM::VAR_KW => {
            reveal_strlit("var");
            assert(text_of(t) =~= seq!['v', 'a', 'r']);
        },
        TokenM::PUB_KW => {
            reveal_strlit("pub");
            assert(text_of(t) =~= seq!['p', 'u', 'b']);
        },
        TokenM::DEF_KW => {
            reveal_strlit("def");
            assert(text_of(t) =~= seq!['d', 'e', 'f']);
        },
        TokenM::TABLE_KW => {
            reveal_strlit("table");
            assert(text_of(t) =~= seq!['t', 'a', 'b', 'l', 'e']);
        },
        TokenM::INSERT_KW => {
            reveal_strlit("insert");
            assert(text_of(t) =~= seq!['i', 'n', 's', 'e', 'r', 't']);
        },
        TokenM::SELECT_KW => {
            reveal_strlit("select");
            assert(text_of(t) =~= seq!['s', 'e', 'l', 'e', 'c', 't']);
        },
        TokenM::FROM_KW => {
            reveal_strlit("from");
            assert(text_of(t) =~= seq!['f', 'r', 'o', 'm']);
        },
        TokenM::WHERE_KW => {
            reveal_strlit("where");
            assert(text_of(t) =~= seq!['w', 'h', 'e', 'r', 'e']);
        },
        TokenM::INTO_KW => {
            reveal_strlit("into");
            assert(text_of(t) =~= seq!['i', 'n', 't', 'o']);
        },
        TokenM::FOLD_KW => {
            reveal_strlit("fold");
            assert(text_of(t) =~= seq!['f', 'o', 'l', 'd']);
        },
        TokenM::ACTION_KW => {
            reveal_strlit("action");
            assert(text_of(t) =~= seq!['a', 'c', 't', 'i', 'o', 'n']);
        },
        TokenM::FN_KW => {
            reveal_strlit("fn");
            assert(text_of(t) =~= seq!['f', 'n']);
        },
        TokenM::THEN_KW => {
            reveal_strlit("then");
            assert(text_of(t) =~= seq!['t', 'h', 'e', 'n']);
        },
        TokenM::IF_KW => {
            reveal_strlit("if");
            assert(text_of(t) =~= seq!['i', 'f']);
        },
        TokenM::ELSE_KW => {
            reveal_strlit("else");
            assert(text_of(t) =~= seq!['e', 'l', 's', 'e']);
        },
        TokenM::NUMBER_KW => {
            reveal_strlit("number");
            assert(text_of(t) =~= seq!['n', 'u', 'm', 'b', 'e', 'r']);
        },
        TokenM::STRING_KW => {
            reveal_strlit("string");
            assert(text_of(t) =~= seq!['s', 't', 'r', 'i', 'n', 'g']);
        },
        TokenM::BOOL_KW => {
            reveal_strlit("bool");
            assert(text_of(t) =~= seq!['b', 'o', 'o', 'l']);
        },
        TokenM::LET_KW => {
            reveal_strlit("let");
            assert(text_of(t) =~= seq!['l', 'e', 't']);
        },
        TokenM::WATCH_KW => {
            reveal_strlit("watch");
            assert(text_of(t) =~= seq!['w', 'a', 't', 'c', 'h']);
        },
        _ => {},
    }
}

/// The keywords differ.
proof fn lemma_keyword_token(t: TokenM)
    requires
        token::is_fixed(t),
        writable(t),
        text_of(t).len() > 0,
        letter(text_of(t)[0]),
    ensures
        token::word_token(text_of(t)) == t,
{
    reveal_strlit("true");
    reveal_strlit("false");
    reveal_strlit("service");
    reveal_strlit("do");
    reveal_strlit("assert");
    reveal_strlit("import");
    reveal_strlit("var");
    reveal_strlit("pub");
    reveal_strlit("def");
    reveal_strlit("table");
    reveal_strlit("insert");
    reveal_strlit("select");
    reveal_strlit("from");
    reveal_strlit("where");
    reveal_strlit("into");
    reveal_strlit("fold");
    reveal_strlit("action");
    reveal_strlit("fn");
    reveal_strlit("then");
    reveal_strlit("if");
    reveal_strlit("else");
    reveal_strlit("number");
    reveal_strlit("string");
    reveal_strlit("bool");
    reveal_strlit("let");
    reveal_strlit("watch");
    reveal_strlit("@test");
    reveal_strlit("-");
    reveal_strlit("+");
    reveal_strlit("*");
    reveal_strlit("/");
    reveal_strlit("=");
    reveal_strlit("=>");
    reveal_strlit("==");
    reveal_strlit("<");
    reveal_strlit(">");
    reveal_strlit("&&");
    reveal_strlit("||");
    reveal_strlit("!");
    reveal_strlit("(");
    reveal_strlit(")");
    reveal_strlit("{");
    reveal_strlit("}");
    reveal_strlit("[");
    reveal_strlit("]");
    reveal_strlit(";");
    reveal_strlit(",");
    reveal_strlit(":");
    reveal_strlit(".");
    match t {
        TokenM::TRUE => {
            assert("true"@[0] == 't' && "true"@[1] == 'r');
        },
        TokenM::FALSE => {
            assert("false"@[0] == 'f' && "false"@[1] == 'a');
        },
        TokenM::SERVICE => {
            assert("service"@[0] == 's' && "service"@[1] == 'e');
        },
        TokenM::DO_KW => {
            assert("do"@[0] == 'd' && "do"@[1] == 'o');
        },
        TokenM::ASSERT_KW => {
            assert("assert"@[0] == 'a' && "assert"@[1] == 's');
        },
        TokenM::IMPORT_KW => {
            assert("import"@[0] == 'i' && "import"@[1] == 'm');
        },
        TokenM::VAR_KW => {
            assert("var"@[0] == 'v' && "var"@[1] == 'a');
        },
        TokenM::PUB_KW => {
            assert("pub"@[0] == 'p' && "pub"@[1] == 'u');
        },
        TokenM::DEF_KW => {
            assert("def"@[0] == 'd' && "def"@[1] == 'e');
        },
        TokenM::TABLE_KW => {
            assert("table"@[0] == 't' && "table"@[1] == 'a');
        },
        TokenM::INSERT_KW => {
            assert("insert"@[0] == 'i' && "insert"@[1] == 'n');
        },
        TokenM::SELECT_KW => {
            assert("select"@[0] == 's' && "select"@[1] == 'e');
        },
        TokenM::FROM_KW => {
            assert("from"@[0] == 'f' && "from"@[1] == 'r');
        },
        TokenM::WHERE_KW => {
            assert("where"@[0] == 'w' && "where"@[1] == 'h');
        },
        TokenM::INTO_KW => {
            assert("into"@[0] == 'i' && "into"@[1] == 'n');
        },
        TokenM::FOLD_KW => {
            assert("fold"@[0] == 'f' && "fold"@[1] == 'o');
        },
        TokenM::ACTION_KW => {
            assert("action"@[0] == 'a' && "action"@[1] == 'c');
        },
        TokenM::FN_KW => {
            assert("fn"@[0] == 'f' && "fn"@[1] == 'n');
        },
        TokenM::THEN_KW => {
            assert("then"@[0] == 't' && "then"@[1] == 'h');
        },
        TokenM::IF_KW => {
            assert("if"@[0] == 'i' && "if"@[1] == 'f');
        },
        TokenM::ELSE_KW => {
            assert("else"@[0] == 'e' && "else"@[1] == 'l');
        },
        TokenM::NUMBER_KW => {
            assert("number"@[0] == 'n' && "number"@[1] == 'u');
        },
        TokenM::STRING_KW => {
            assert("string"@[0] == 's' && "string"@[1] == 't');
        },
        TokenM::BOOL_KW => {
            assert("bool"@[0] == 'b' && "bool"@[1] == 'o');
        },
        TokenM::LET_KW => {
            assert("let"@[0] == 'l' && "let"@[1] == 'e');
        },
        TokenM::WATCH_KW => {
            assert("watch"@[0] == 'w' && "watch"@[1] == 'a');
        },
        _ => {},
    }
}

/// A text that stands at a place is what is cut out there.
proof fn lemma_cut(s: Seq<char>, i: nat, w: Seq<char>)
    requires
        i + w.len() <= s.len(),
        forall|k: int| 0 <= k < w.len() ==> #[trigger] s[i + k] == w[k],
    ensures
        s.subrange(i as int, (i + w.len()) as int) == w,
{
    let c = s.subrange(i as int, (i + w.len()) as int);
    assert forall|k: int| 0 <= k < w.len() implies c[k] == #[trigger] w[k] by {
        assert(s[i + k] == w[k]);
    }
    assert(c =~= w);
}

/// What the keywords and signs are made of.
proof fn reveal_words()
    ensures
        "true"@ == seq!['t', 'r', 'u', 'e'],
        "false"@ == seq!['f', 'a', 'l', 's', 'e'],
        "service"@ == seq!['s', 'e', 'r', 'v', 'i', 'c', 'e'],
        "do"@ == seq!['d', 'o'],
        "assert"@ == seq!['a', 's', 's', 'e', 'r', 't'],
        "import"@ == seq!['i', 'm', 'p', 'o', 'r', 't'],
        "var"@ == seq!['v', 'a', 'r'],
        "pub"@ == seq!['p', 'u', 'b'],
        "def"@ == seq!['d', 'e', 'f'],
        "table"@ == seq!['t', 'a', 'b', 'l', 'e'],
        "insert"@ == seq!['i', 'n', 's', 'e', 'r', 't'],
        "select"@ == seq!['s', 'e', 'l', 'e', 'c', 't'],
        "from"@ == seq!['f', 'r', 'o', 'm'],
        "where"@ == seq!['w', 'h', 'e', 'r', 'e'],
        "into"@ == seq!['i', 'n', 't', 'o'],
        "fold"@ == seq!['f', 'o', 'l', 'd'],
        "action"@ == seq!['a', 'c', 't', 'i', 'o', 'n'],
        "fn"@ == seq!['f', 'n'],
        "then"@ == seq!['t', 'h', 'e', 'n'],
        "if"@ == seq!['i', 'f'],
        "else"@ == seq!['e', 'l', 's', 'e'],
        "number"@ == seq!['n', 'u', 'm', 'b', 'e', 'r'],
        "string"@ == seq!['s', 't', 'r', 'i', 'n', 'g'],
        "bool"@ == seq!['b', 'o', 'o', 'l'],
        "let"@ == seq!['l', 'e', 't'],
        "watch"@ == seq!['w', 'a', 't', 'c', 'h'],
        "@test"@ == seq!['@', 't', 'e', 's', 't'],
{
    reveal_strlit("true");
    reveal_strlit("false");
    reveal_strlit("service");
    reveal_strlit("do");
    reveal_strlit("assert");
    reveal_strlit("import");
    reveal_strlit("var");
    reveal_strlit("pub");
    reveal_strlit("def");
    reveal_strlit("table");
    reveal_strlit("insert");
    reveal_strlit("select");
    reveal_strlit("from");
    reveal_strlit("where");
    reveal_strlit("into");
    reveal_strlit("fold");
    reveal_strlit("action");
    reveal_strlit("fn");
    reveal_strlit("then");
    reveal_strlit("if");
    reveal_strlit("else");
    reveal_strlit("number");
    reveal_strlit("string");
    reveal_strlit("bool");
    reveal_strlit("let");
    reveal_strlit("watch");
    reveal_strlit("@test");
}

/// What the signs are made of.
proof fn reveal_signs()
    ensures
        "-"@ == seq!['-'],
        "+"@ == seq!['+'],
        "*"@ == seq!['*'],
        "/"@ == seq!['/'],
        "="@ == seq!['='],
        "=>"@ == seq!['=', '>'],
        "=="@ == seq!['=', '='],
        "<"@ == seq!['<'],
        ">"@ == seq!['>'],
        "&&"@ == seq!['&', '&'],
        "||"@ == seq!['|', '|'],
        "!"@ == seq!['!'],
        "("@ == seq!['('],
        ")"@ == seq![')'],
        "{"@ == seq!['{'],
        "}"@ == seq!['}'],
        "["@ == seq!['['],
        "]"@ == seq![']'],
        ";"@ == seq![';'],
        ","@ == seq![','],
        ":"@ == seq![':'],
        "."@ == seq!['.'],
{
    reveal_strlit("-");
    reveal_strlit("+");
    reveal_strlit("*");
    reveal_strlit("/");
    reveal_strlit("=");
    reveal_strlit("=>");
    reveal_strlit("==");
    reveal_strlit("<");
    reveal_strlit(">");
    reveal_strlit("&&");
    reveal_strlit("||");
    reveal_strlit("!");
    reveal_strlit("(");
    reveal_strlit(")");
    reveal_strlit("{");
    reveal_strlit("}");
    reveal_strlit("[");
    reveal_strlit("]");
    reveal_strlit(";");
    reveal_strlit(",");
    reveal_strlit(":");
    reveal_strlit(".");
}

/// A word is lexed.
proof fn lemma_word(s: Seq<char>, i: nat, w: Seq<char>)
    requires
        wordlike(w),
        alone_at(s, i, w),
    ensures
        lex::token_at(s, i) == (Some(token::word_token(w)), i + w.len()),
{
    let j = i + w.len();
    assert(s[i + 0int] == w[0]);
    lemma_cut(s, i, w);
    assert forall|k: int| i <= k < j implies lex::in_word(#[trigger] s[k]) by {
        assert(s[i + (k - i)] == w[k - i]);
    }
    lemma_word_end(s, i, j);
}

/// A sign is lexed.
proof fn lemma_sign(s: Seq<char>, i: nat, t: TokenM)
    requires
        token::is_fixed(t),
        writable(t),
        !letter(text_of(t)[0]),
        alone_at(s, i, text_of(t)),
    ensures
        lex::token_at(s, i) == (Some(t), i + text_of(t).len()),
{
    let w = text_of(t);
    reveal_words();
    reveal_signs();
    assert(s[i + 0int] == w[0]);
    if w.len() > 1 {
        assert(s[i + 1int] == w[1]);
    }
    if t is TEST_KW {
        lemma_cut(s, i, w);
    } else if text::occurs_at(s, "@test"@, i as int) {
        assert(s.subrange(i as int, i + 5int)[0] == s[i as int]);
    }
}

/// A token that stands alone is lexed.
pub proof fn lemma_token(s: Seq<char>, i: nat, t: TokenM)
    requires
        writable(t),
        alone_at(s, i, text_of(t)),
    ensures
        lex::token_at(s, i) == (Some(t), i + text_of(t).len()),
        text_of(t).len() > 0,
        !text::is_white(text_of(t)[0]),
{
    let w = text_of(t);
    match t {
        TokenM::StrLit(x) => {
            let j = i + 1 + x.len();
            assert(s[i + 0int] == w[0]);
            assert(s[i + (1 + x.len() as int)] == w[1 + x.len() as int]);
            assert forall|k: int| i + 1 <= k < j implies #[trigger] s[k] != '"' by {
                assert(s[i + (k - i)] == w[k - i]);
                assert(w[k - i] == x[k - i - 1]);
            }
            lemma_quote(s, i + 1, j);
            assert(s.subrange(i + 1int, j as int) =~= x) by {
                assert forall|k: int| 0 <= k < x.len() implies s[i + 1 + k] == #[trigger] x[k] by {
                    assert(s[i + (1 + k)] == w[1 + k]);
                }
            }
        },
        TokenM::Ident(x) => {
            lemma_word(s, i, x);
            lemma_no_keyword(x);
        },
        TokenM::Number(n) => {
            let v = (if n == i32::MIN {
                2147483648
            } else {
                n as int
            }) as nat;
            lemma_decimal(v);
            assert(lex::is_digit(w[0]));
            lemma_number(s, i, v);
        },
        _ => {
            reveal_words();
            reveal_signs();
            if letter(w[0]) {
                lemma_keyword(t);
                lemma_word(s, i, w);
            } else {
                lemma_sign(s, i, t);
            }
        },
    }
}

/// A word that is no keyword is a name.
proof fn lemma_no_keyword(x: Seq<char>)
    requires
        writable(TokenM::Ident(x)),
    ensures
        token::word_token(x) == TokenM::Ident(x),
{
    assert(token::is_fixed(TokenM::TRUE) && token::is_fixed(TokenM::FALSE));
    assert(token::is_fixed(TokenM::SERVICE) && token::is_fixed(TokenM::DO_KW));
    assert(token::is_fixed(TokenM::ASSERT_KW) && token::is_fixed(TokenM::IMPORT_KW));
    assert(token::is_fixed(TokenM::VAR_KW) && token::is_fixed(TokenM::PUB_KW));
    assert(token::is_fixed(TokenM::DEF_KW) && token::is_fixed(TokenM::TABLE_KW));
    assert(token::is_fixed(TokenM::INSERT_KW) && token::is_fixed(TokenM::SELECT_KW));
    assert(token::is_fixed(TokenM::FROM_KW) && token::is_fixed(TokenM::WHERE_KW));
    assert(token::is_fixed(TokenM::INTO_KW) && token::is_fixed(TokenM::FOLD_KW));
    assert(token::is_fixed(TokenM::ACTION_KW) && token::is_fixed(TokenM::FN_KW));
    assert(token::is_fixed(TokenM::THEN_KW) && token::is_fixed(TokenM::IF_KW));
    assert(token::is_fixed(TokenM::ELSE_KW) && token::is_fixed(TokenM::NUMBER_KW));
    assert(token::is_fixed(TokenM::STRING_KW) && token::is_fixed(TokenM::BOOL_KW));
    assert(token::is_fixed(TokenM::LET_KW) && token::is_fixed(TokenM::WATCH_KW));
}

/// Tokens as text, a space behind each.
pub open spec fn joined(ts: Seq<TokenM>) -> Seq<char>
    decreases ts.len(),
{
    if ts.len() == 0 {
        seq![]
    } else {
        joined(ts.drop_last()) + text_of(ts.last()) + seq![' ']
    }
}

/// The text of the first tokens is the beginning of the text of all, and the next
/// token stands behind it.
proof fn lemma_joined(ts: Seq<TokenM>, m: nat)
    requires
        m < ts.len(),
    ensures
        ({
            let s = joined(ts);
            let i = joined(ts.take(m as int)).len();
            let w = text_of(ts[m as int]);
            &&& alone_at(s, i, w)
            &&& i + w.len() < s.len()
            &&& joined(ts.take(m + 1int)).len() == i + w.len() + 1
        }),
        joined(ts.take(m as int)).is_prefix_of(joined(ts)),
    decreases ts.len(),
{
    let rest = ts.drop_last();
    let s = joined(ts);
    let r = joined(rest);
    assert(ts.take(m + 1int).drop_last() =~= ts.take(m as int));
    assert(ts.take(m + 1int).last() == ts[m as int]);
    if m + 1 < ts.len() {
        lemma_joined(rest, m);
        assert(rest.take(m as int) =~= ts.take(m as int));
        assert(rest.take(m + 1int) =~= ts.take(m + 1int));
        let i = joined(ts.take(m as int)).len();
        let w = text_of(ts[m as int]);
        assert forall|k: int| 0 <= k < w.len() implies #[trigger] s[i + k] == w[k] by {
            assert(r[i + k] == w[k]);
        }
        assert(s[i + w.len() as int] == r[i + w.len() as int]);
    } else {
        assert(ts.take(m as int) =~= rest);
        let w = text_of(ts[m as int]);
        let i = r.len();
        assert forall|k: int| 0 <= k < w.len() implies #[trigger] s[i + k] == w[k] by {}
    }
}

/// The tokens of a source.
pub open spec fn tokens(v: Seq<SpannedM>) -> Seq<TokenM> {
    Seq::new(v.len(), |i: int| v[i].token)
}

/// The tokens from place `m` on are lexed.
proof fn lemma_lexed(ts: Seq<TokenM>, m: nat)
    requires
        m <= ts.len(),
        forall|i: int| 0 <= i < ts.len() ==> writable(#[trigger] ts[i]),
    ensures
        tokens(lex::lexed(joined(ts), joined(ts.take(m as int)).len())) == ts.skip(m as int),
    decreases ts.len() - m,
{
    let s = joined(ts);
    let i = joined(ts.take(m as int)).len();
    if m == ts.len() {
        assert(ts.take(m as int) =~= ts);
        assert(ts.skip(m as int) =~= seq![]);
        assert(tokens(lex::lexed(s, i)) =~= seq![]);
    } else {
        let t = ts[m as int];
        let j = i + text_of(t).len();
        lemma_joined(ts, m);
        assert(writable(t));
        lemma_token(s, i, t);
        lemma_lexed(ts, m + 1);
        // The space behind the token is skipped.
        assert(lex::space_end(s, j + 1) == j + 1) by {
            if j + 1 < s.len() {
                assert(m + 1 < ts.len()) by {
                    if m + 1 == ts.len() {
                        assert(ts.take(m + 1int) =~= ts);
                    }
                }
                lemma_joined(ts, m + 1);
                let u = ts[m + 1int];
                assert(writable(u));
                lemma_token(s, j + 1, u);
                assert(s[j + 1 + 0int] == text_of(u)[0]);
            }
        }
        assert(lex::token_at(s, j) == (None::<TokenM>, j + 1));
        assert(lex::lexed(s, j) == lex::lexed(s, j + 1));
        let one = SpannedM { start: i, token: t, end: j };
        assert(lex::lexed(s, i) == seq![one] + lex::lexed(s, j));
        let v = lex::lexed(s, j + 1);
        assert(tokens(seq![one] + v) =~= seq![t] + tokens(v));
        assert(ts.skip(m as int) =~= seq![t] + ts.skip(m + 1int));
    }
}

/// Tokens that are written out are what the text is split into again.
pub proof fn law_written_tokens_are_lexed(ts: Seq<TokenM>)
    requires
        forall|i: int| 0 <= i < ts.len() ==> writable(#[trigger] ts[i]),
    ensures
        tokens(lex::lexed(joined(ts), 0)) == ts,
{
    lemma_lexed(ts, 0);
    assert(ts.take(0) =~= seq![]);
    assert(ts.skip(0) =~= ts);
}

/// A program that is written out is read again: where tokens that can be written
/// spell it, it is what their text is parsed as.
pub proof fn law_written_program_is_read(ts: Seq<TokenM>, names: Names, v: Seq<StmtM<Symbol>>)
    requires
        forall|i: int| 0 <= i < ts.len() ==> writable(#[trigger] ts[i]),
        forall|i: int|
            0 <= i < ts.len() ==> (match #[trigger] ts[i] {
                TokenM::Ident(s) => text::byte_len(s)
                    <= crate::runtime::limits::MAX_IDENTIFIER_LENGTH,
                TokenM::StrLit(s) => text::byte_len(s)
                    <= crate::runtime::limits::MAX_STRING_LITERAL_LENGTH,
                _ => true,
            }),
        spelling::spells_program(parser::source(joined(ts)), names, v, v.len()),
        ts.len() == spelling::program_width(v, v.len()),
    ensures
        parser::parsed(joined(ts), names) == (
            Ok::<Seq<StmtM<Symbol>>, Seq<char>>(v),
            names,
        ),
{
    let src = parser::source(joined(ts));
    law_written_tokens_are_lexed(ts);
    assert(tokens(src.toks).len() == ts.len());
    assert forall|i: int| 0 <= i < src.toks.len() implies parser::oversize(
        (#[trigger] src.toks[i]).token,
    ) is None by {
        assert(tokens(src.toks)[i] == ts[i]);
    }
    lemma_no_oversize(src.toks, 0);
    reading::law_spelled_program_is_read(src, names, v);
}

proof fn lemma_no_oversize(v: Seq<SpannedM>, i: nat)
    requires
        forall|k: int| 0 <= k < v.len() ==> parser::oversize((#[trigger] v[k]).token) is None,
    ensures
        parser::first_oversize(v, i) is None,
    decreases v.len() - i,
{
    if i < v.len() {
        lemma_no_oversize(v, i + 1);
    }
}

/// A source of one token.
proof fn lemma_one_token(s: Seq<char>, t: TokenM)
    requires
        writable(t),
        s == text_of(t),
    ensures
        tokens(lex::lexed(s, 0)) == seq![t],
{
    lemma_token(s, 0, t);
    let one = SpannedM { start: 0, token: t, end: s.len() };
    assert(lex::lexed(s, s.len()) =~= seq![]);
    assert(lex::lexed(s, 0) =~= seq![one]);
    assert(tokens(lex::lexed(s, 0)) =~= seq![t]);
}

/// A minus sign and a numeral.
proof fn lemma_negative(n: nat)
    requires
        0 < n <= 2147483648,
    ensures
        tokens(lex::lexed(seq!['-'] + text::decimal(n), 0)) == seq![
            TokenM::Minus,
            TokenM::Number(
                if n == 2147483648 {
                    i32::MIN
                } else {
                    n as i32
                },
            ),
        ],
{
    let d = text::decimal(n);
    let s = seq!['-'] + d;
    lemma_decimal(n);
    assert(s[0] == '-');
    reveal_words();
    assert(!text::occurs_at(s, "@test"@, 0)) by {
        if text::occurs_at(s, "@test"@, 0) {
            assert(s.subrange(0, 5)[0] == s[0]);
        }
    }
    assert(lex::token_at(s, 0) == (Some(TokenM::Minus), 1nat));
    assert forall|k: int| 0 <= k < d.len() implies #[trigger] s[1nat + k] == d[k] by {}
    lemma_number(s, 1, n);
    let a = SpannedM { start: 0, token: TokenM::Minus, end: 1 };
    let b = SpannedM { start: 1, token: lex::token_at(s, 1).0->Some_0, end: s.len() };
    assert(lex::lexed(s, s.len()) =~= seq![]);
    assert(lex::lexed(s, 1) =~= seq![b]);
    assert(lex::lexed(s, 0) =~= seq![a, b]);
    assert(tokens(lex::lexed(s, 0)) =~= seq![a.token, b.token]);
}

/// Whether a text, as a whole, is an expression that has the value.
pub open spec fn reads_as(t: Seq<char>, v: ValueM<Symbol>) -> bool {
    let src = parser::source(t);
    forall|names: Names|
        {
            let r = #[trigger] grammar::expr(src, 0, names);
            &&& r.0 is Ok
            &&& r.0->Ok_0.1 == src.toks.len()
            &&& r.1 == names
            &&& forall|n: nat, env: EnvM, svc: Symbol, w: World|
                n >= 2 ==> #[trigger] semantics::eval(n, r.0->Ok_0.0, env, svc, w) == (
                    Ok::<ValueM<Symbol>, ErrM>(v),
                    w,
                )
        }
}

/// What is shown of a value is an expression that has it.
pub proof fn lemma_shown_reads(v: ValueM<Symbol>)
    requires
        v is Int || v is Bool || (v is String && !v->String_val.contains('"')),
    ensures
        reads_as(display::show_value(v), v),
{
    let src = parser::source(display::show_value(v));
    assert forall|names: Names|
        {
            let r = #[trigger] grammar::expr(src, 0, names);
            &&& r.0 is Ok
            &&& r.0->Ok_0.1 == src.toks.len()
            &&& r.1 == names
            &&& forall|n: nat, env: EnvM, svc: Symbol, w: World|
                n >= 2 ==> #[trigger] semantics::eval(n, r.0->Ok_0.0, env, svc, w) == (
                    Ok::<ValueM<Symbol>, ErrM>(v),
                    w,
                )
        } by {
        let r = grammar::expr(src, 0, names);
        let w0: World = arbitrary();
        law_shown_value_is_read(v, names, 2, seq![], Symbol { id: 0 }, w0);
        assert forall|n: nat, env: EnvM, svc: Symbol, w: World| n >= 2 implies
            #[trigger] semantics::eval(n, r.0->Ok_0.0, env, svc, w) == (
            Ok::<ValueM<Symbol>, ErrM>(v),
            w,
        ) by {
            law_shown_value_is_read(v, names, n, env, svc, w);
        }
    }
}

/// A number, a truth value or a string is shown as it is written in a program:
/// what is shown of it is read as an expression that has it as its value. It is
/// the literal of that value, or, for a number below zero, a minus sign and a
/// literal. A string with a quote in it cannot be written.
pub proof fn law_shown_value_is_read(
    v: ValueM<Symbol>,
    names: Names,
    n: nat,
    env: EnvM,
    svc: Symbol,
    w: World,
)
    requires
        v is Int || v is Bool || (v is String && !v->String_val.contains('"')),
        n >= 2,
    ensures
        ({
            let src = parser::source(display::show_value(v));
            let r = grammar::expr(src, 0, names);
            &&& r.0 is Ok
            &&& r.0->Ok_0.1 == src.toks.len()
            &&& r.1 == names
            &&& semantics::eval(n, r.0->Ok_0.0, env, svc, w) == (
                Ok::<ValueM<Symbol>, ErrM>(v),
                w,
            )
            &&& !(v is Int && v->Int_val < 0) ==> r.0->Ok_0.0 == (ExprM::Literal { val: v })
        }),
{
    let s = display::show_value(v);
    let src = parser::source(s);
    reveal(display::show_value);
    reveal(display::show_env);
    reveal(display::show_expr);
    reveal_strlit("\"");
    let ts = tokens(src.toks);
    if v is Int && v->Int_val < 0 {
        let x = v->Int_val;
        let m = (-x) as nat;
        lemma_negative(m);
        let lit = ValueM::<Symbol>::Int {
            val: if m == 2147483648 {
                i32::MIN
            } else {
                m as i32
            },
        };
        let e = ExprM::Unop { op: UnOpM::Neg, expr: Box::new(ExprM::Literal { val: lit }) };
        assert(s == seq!['-'] + text::decimal(m));
        assert(ts.len() == 2);
        assert(ts[0] == TokenM::Minus);
        assert(ts[1] == TokenM::Number(lit->Int_val));
        assert(src.toks[0].token == ts[0]);
        assert(src.toks[1].token == ts[1]);
        assert(spelling::spells(src, names, 1, ExprM::Literal { val: lit }, 7)) by {
            assert(spelling::spells_bare(src, names, 1, ExprM::Literal { val: lit }));
        }
        assert(spelling::width(ExprM::Literal { val: lit }, 7) == 1) by {
            assert(spelling::bare_width(ExprM::<Symbol>::Literal { val: lit }) == 1);
        }
        assert(spelling::spells_bare(src, names, 0, e));
        assert(spelling::bare_width(e) == 2);
        assert(spelling::spells(src, names, 0, e, 0));
        assert(spelling::width(e, 0) == 2);
        reading::law_spelled_expression_is_read(src, names, 0, e);
        laws::law_literals_are_operated_on(n, BinOpM::Add, UnOpM::Neg, lit, lit, env, svc, w);
    } else {
        let t = match v {
            ValueM::Int { val } => TokenM::Number(val),
            ValueM::Bool { val } => if val {
                TokenM::TRUE
            } else {
                TokenM::FALSE
            },
            ValueM::String { val } => TokenM::StrLit(val),
            _ => TokenM::Error,
        };
        assert(s =~= text_of(t));
        lemma_one_token(s, t);
        assert(ts.len() == 1);
        assert(ts[0] == t);
        assert(src.toks[0].token == ts[0]);
        let e = ExprM::Literal { val: v };
        assert(spelling::spells_bare(src, names, 0, e));
        assert(spelling::bare_width(e) == 1);
        assert(spelling::spells(src, names, 0, e, 0));
        assert(spelling::width(e, 0) == 1);
        reading::law_spelled_expression_is_read(src, names, 0, e);
        laws::law_literals_are_operated_on(n, BinOpM::Add, UnOpM::Neg, v, v, env, svc, w);
    }
}

/// Operators are shown as they are written in programs.
pub proof fn law_shown_operator_is_lexed(op: BinOpM, uop: UnOpM)
    ensures
        tokens(lex::lexed(display::show_binop(op), 0)) == seq![spelling::sign(op)],
        tokens(lex::lexed(display::show_unop(uop), 0)) == seq![spelling::prefix(uop)],
{
    reveal_signs();
    lemma_one_token(display::show_binop(op), spelling::sign(op));
    lemma_one_token(display::show_unop(uop), spelling::prefix(uop));
}

/// A comment to the end of the line is skipped.
pub proof fn law_line_comment_is_skipped(s: Seq<char>, i: nat, j: nat)
    requires
        i + 2 <= j <= s.len(),
        s[i as int] == '/',
        s[i + 1int] == '/',
        forall|k: int| i + 2 <= k < j ==> #[trigger] s[k] != '\n',
        j < s.len() ==> s[j as int] == '\n',
    ensures
        lex::lexed(s, i) == lex::lexed(s, j),
{
    lemma_line_end(s, i + 2, j);
    assert(lex::token_at(s, i) == (None::<TokenM>, j));
}

proof fn lemma_line_end(s: Seq<char>, i: nat, j: nat)
    requires
        i <= j <= s.len(),
        forall|k: int| i <= k < j ==> #[trigger] s[k] != '\n',
        j < s.len() ==> s[j as int] == '\n',
    ensures
        lex::line_end(s, i) == j,
    decreases j - i,
{
    if i < j {
        assert(s[i as int] != '\n');
        lemma_line_end(s, i + 1, j);
    }
}

/// A comment between its marks is skipped, whatever stands in it but another mark.
pub proof fn law_block_comment_is_skipped(s: Seq<char>, i: nat, j: nat)
    requires
        i + 4 <= j <= s.len(),
        s[i as int] == '/',
        s[i + 1int] == '*',
        s[j - 2] == '*',
        s[j - 1] == '/',
        forall|k: int|
            i + 2 <= k < j - 2 ==> !(#[trigger] s[k] == '*' && s[k + 1] == '/') && !(s[k] == '/'
                && s[k + 1] == '*'),
    ensures
        lex::lexed(s, i) == lex::lexed(s, j),
{
    lemma_comment_end(s, i + 2, j);
    assert(lex::token_at(s, i) == (None::<TokenM>, j));
}

proof fn lemma_comment_end(s: Seq<char>, i: nat, j: nat)
    requires
        i + 2 <= j <= s.len(),
        s[j - 2] == '*',
        s[j - 1] == '/',
        forall|k: int|
            i <= k < j - 2 ==> !(#[trigger] s[k] == '*' && s[k + 1] == '/') && !(s[k] == '/'
                && s[k + 1] == '*'),
    ensures
        lex::comment_end(s, i, 1) == j,
    decreases j - i,
{
    if i < j - 2 {
        assert(!(s[i as int] == '*' && s[i + 1int] == '/'));
        lemma_comment_end(s, i + 1, j);
    }
}

/// White space between tokens is skipped, however much there is. It starts with a
/// plain space or break, or is more than one character.
pub proof fn law_white_space_is_skipped(s: Seq<char>, i: nat, j: nat)
    requires
        i < j <= s.len(),
        forall|k: int| i <= k < j ==> text::is_white(#[trigger] s[k]),
        j < s.len() ==> !text::is_white(s[j as int]),
        s[i as int] == ' ' || s[i as int] == '\n' || s[i as int] == '\t' || j > i + 1,
    ensures
        lex::lexed(s, i) == lex::lexed(s, j),
{
    lemma_space_end(s, i + 1, j);
    assert(text::is_white(s[i as int]));
    assert(lex::token_at(s, i) == (None::<TokenM>, j));
}

proof fn lemma_space_end(s: Seq<char>, i: nat, j: nat)
    requires
        i <= j <= s.len(),
        forall|k: int| i <= k < j ==> text::is_white(#[trigger] s[k]),
        j < s.len() ==> !text::is_white(s[j as int]),
    ensures
        lex::space_end(s, i) == j,
    decreases j - i,
{
    if i < j {
        assert(text::is_white(s[i as int]));
        lemma_space_end(s, i + 1, j);
    }
}

/// What is entered is complete where it is a program that is written out.
pub proof fn law_written_input_is_complete(ts: Seq<TokenM>, names: Names, v: Seq<StmtM<Symbol>>)
    requires
        v.len() > 0,
        ts.len() > 0,
        forall|i: int| 0 <= i < ts.len() ==> writable(#[trigger] ts[i]),
        forall|i: int|
            0 <= i < ts.len() ==> (match #[trigger] ts[i] {
                TokenM::Ident(s) => text::byte_len(s)
                    <= crate::runtime::limits::MAX_IDENTIFIER_LENGTH,
                TokenM::StrLit(s) => text::byte_len(s)
                    <= crate::runtime::limits::MAX_STRING_LITERAL_LENGTH,
                _ => true,
            }),
        spelling::spells_program(parser::source(joined(ts)), names, v, v.len()),
        ts.len() == spelling::program_width(v, v.len()),
    ensures
        parser::repl_parsed(joined(ts), names) == (parser::ReplM::Complete(v), names),
{
    let s = joined(ts);
    let src = parser::source(s);
    law_written_program_is_read(ts, names, v);
    assert(parser::first_oversize(src.toks, 0) is None);
    lemma_joined(ts, 0);
    assert(ts.take(0) =~= seq![]);
    assert(joined(ts.take(0)) =~= seq![]);
    lemma_token(s, 0, ts[0]);
    assert(s[0 + 0int] == text_of(ts[0])[0]);
    assert(!text::is_white(s[0]));
}

/// A text with a name or a string that is too long is no program.
pub proof fn law_long_tokens_are_refused(input: Seq<char>, names: Names, i: int)
    requires
        ({
            let toks = parser::source(input).toks;
            &&& 0 <= i < toks.len()
            &&& match toks[i].token {
                TokenM::Ident(s) => text::byte_len(s)
                    > crate::runtime::limits::MAX_IDENTIFIER_LENGTH,
                TokenM::StrLit(s) => text::byte_len(s)
                    > crate::runtime::limits::MAX_STRING_LITERAL_LENGTH,
                _ => false,
            }
        }),
    ensures
        parser::parsed(input, names).0 is Err,
        parser::parsed(input, names).1 == names,
        !text::is_blank(input) ==> parser::repl_parsed(input, names).0 is Error,
{
    lemma_oversize(parser::source(input).toks, 0, i);
}

proof fn lemma_oversize(v: Seq<SpannedM>, j: nat, i: int)
    requires
        j <= i < v.len(),
        parser::oversize(v[i].token) is Some,
    ensures
        parser::first_oversize(v, j) is Some,
    decreases i - j,
{
    if j < i {
        lemma_oversize(v, j + 1, i);
    }
}

/// A comment in a comment is skipped with it: what goes on behind is still in the
/// outer comment.
pub proof fn law_comments_nest(s: Seq<char>, i: nat, j: nat, depth: nat)
    requires
        depth >= 1,
        i + 4 <= j <= s.len(),
        s[i as int] == '/',
        s[i + 1int] == '*',
        s[j - 2] == '*',
        s[j - 1] == '/',
        forall|k: int|
            i + 2 <= k < j - 2 ==> !(#[trigger] s[k] == '*' && s[k + 1] == '/') && !(s[k] == '/'
                && s[k + 1] == '*'),
    ensures
        lex::comment_end(s, i, depth) == lex::comment_end(s, j, depth),
{
    lemma_inner_end(s, i + 2, j, depth);
}

proof fn lemma_inner_end(s: Seq<char>, i: nat, j: nat, depth: nat)
    requires
        depth >= 1,
        i + 2 <= j <= s.len(),
        s[j - 2] == '*',
        s[j - 1] == '/',
        forall|k: int|
            i <= k < j - 2 ==> !(#[trigger] s[k] == '*' && s[k + 1] == '/') && !(s[k] == '/'
                && s[k + 1] == '*'),
    ensures
        lex::comment_end(s, i, depth + 1) == lex::comment_end(s, j, depth),
    decreases j - i,
{
    if i < j - 2 {
        assert(!(s[i as int] == '*' && s[i + 1int] == '/'));
        lemma_inner_end(s, i + 1, j, depth);
    }
}

} // verus!
