//! Splitting a program into tokens.

use crate::runtime::parser::token;
use crate::runtime::parser::token::{token_of_word, Token, TokenM};
use crate::runtime::text;
use vstd::prelude::*;

verus! {

/// A token and where it stands.
#[derive(Debug, Clone)]
pub struct Spanned {
    pub start: usize,
    pub token: Token,
    pub end: usize,
}

/// The model of a [`Spanned`].
pub struct SpannedM {
    pub start: nat,
    pub token: TokenM,
    pub end: nat,
}

impl DeepView for Spanned {
    type V = SpannedM;

    open spec fn deep_view(&self) -> SpannedM {
        SpannedM {
            start: self.start as nat,
            token: self.token.deep_view(),
            end: self.end as nat,
        }
    }
}

/// Whether a character is outside of ASCII.
pub open spec fn is_foreign(c: char) -> bool {
    c >= '\u{80}'
}

/// Where the white space that goes on at `i` ends.
pub open spec fn space_end(s: Seq<char>, i: nat) -> nat
    decreases s.len() - i,
{
    if i < s.len() && text::is_white(s[i as int]) {
        space_end(s, i + 1)
    } else {
        i
    }
}

/// Whether a character is a digit.
pub open spec fn is_digit(c: char) -> bool {
    '0' <= c && c <= '9'
}

/// Whether an identifier can begin with the character.
pub open spec fn begins_word(c: char) -> bool {
    ('A' <= c && c <= 'Z') || ('a' <= c && c <= 'z') || c == '_'
}

/// Whether an identifier can go on with the character.
pub open spec fn in_word(c: char) -> bool {
    begins_word(c) || is_digit(c)
}

/// Where the word that goes on at `i` ends.
pub open spec fn word_end(s: Seq<char>, i: nat) -> nat
    decreases s.len() - i,
{
    if i < s.len() && in_word(s[i as int]) {
        word_end(s, i + 1)
    } else {
        i
    }
}

/// Where the digits that go on at `i` end.
pub open spec fn digits_end(s: Seq<char>, i: nat) -> nat
    decreases s.len() - i,
{
    if i < s.len() && is_digit(s[i as int]) {
        digits_end(s, i + 1)
    } else {
        i
    }
}

/// The number that digits stand for.
pub open spec fn number_of(s: Seq<char>) -> nat
    decreases s.len(),
{
    if s.len() == 0 {
        0
    } else {
        10 * number_of(s.drop_last()) + ((s.last() as nat) - ('0' as nat)) as nat
    }
}

/// The largest number that can be written, one more than the largest positive
/// value: the sign of a negative one is a token of its own.
pub const MAX_NUMBER: i64 = 2147483648;

/// The token of a numeral. A number that is too large is none.
pub open spec fn number_token(digits: Seq<char>) -> TokenM {
    let n = number_of(digits);
    if n > MAX_NUMBER {
        TokenM::Error
    } else if n == MAX_NUMBER {
        TokenM::Number(i32::MIN)
    } else {
        TokenM::Number(n as i32)
    }
}

/// Where the line that goes on at `i` ends.
pub open spec fn line_end(s: Seq<char>, i: nat) -> nat
    decreases s.len() - i,
{
    if i < s.len() && s[i as int] != '\n' {
        line_end(s, i + 1)
    } else {
        i
    }
}

/// Where the comment that goes on at `i` ends, `depth` comments being open. A
/// comment that is not closed goes on to the end.
pub open spec fn comment_end(s: Seq<char>, i: nat, depth: nat) -> nat
    decreases s.len() - i,
{
    if i >= s.len() {
        s.len()
    } else if s[i as int] == '*' && i + 1 < s.len() && s[i + 1int] == '/' {
        if depth <= 1 {
            i + 2
        } else {
            comment_end(s, i + 2, (depth - 1) as nat)
        }
    } else if s[i as int] == '/' && i + 1 < s.len() && s[i + 1int] == '*' {
        comment_end(s, i + 2, depth + 1)
    } else {
        comment_end(s, i + 1, depth)
    }
}

/// The place of the next quote, or the length.
pub open spec fn quote_place(s: Seq<char>, i: nat) -> nat
    decreases s.len() - i,
{
    if i < s.len() && s[i as int] != '"' {
        quote_place(s, i + 1)
    } else {
        i
    }
}

/// The token of one character.
pub open spec fn single(c: char) -> TokenM {
    if c == '-' {
        TokenM::Minus
    } else if c == '+' {
        TokenM::Plus
    } else if c == '*' {
        TokenM::Asterisk
    } else if c == '/' {
        TokenM::Div
    } else if c == '=' {
        TokenM::Assgn
    } else if c == '<' {
        TokenM::LT
    } else if c == '>' {
        TokenM::GT
    } else if c == '!' {
        TokenM::NOT_NOT
    } else if c == '(' {
        TokenM::LParen
    } else if c == ')' {
        TokenM::RParen
    } else if c == '{' {
        TokenM::LBrace
    } else if c == '}' {
        TokenM::RBrace
    } else if c == '[' {
        TokenM::LSquare
    } else if c == ']' {
        TokenM::RSquare
    } else if c == ';' {
        TokenM::Semicolon
    } else if c == ',' {
        TokenM::Comma
    } else if c == ':' {
        TokenM::Colon
    } else if c == '.' {
        TokenM::Dot
    } else {
        TokenM::Error
    }
}

/// The token of two characters, if they are one.
pub open spec fn double(c: char, d: char) -> Option<TokenM> {
    if c == '=' && d == '>' {
        Some(TokenM::Fn_Assgn)
    } else if c == '=' && d == '=' {
        Some(TokenM::EQ_EQ)
    } else if c == '&' && d == '&' {
        Some(TokenM::AND_AND)
    } else if c == '|' && d == '|' {
        Some(TokenM::OR_OR)
    } else {
        None
    }
}

/// What stands at `i`: a token, or something to skip; and where it ends. Of the
/// tokens that could stand there it is the longest. White space is skipped, but
/// a character that is outside of ASCII and stands alone is an error. A string
/// that is not closed is one error to the end.
pub open spec fn token_at(s: Seq<char>, i: nat) -> (Option<TokenM>, nat) {
    let c = s[i as int];
    let more = i + 1 < s.len();
    if text::is_white(c) {
        let j = space_end(s, i + 1);
        if is_foreign(c) && j == i + 1 {
            (Some(TokenM::Error), j)
        } else {
            (None, j)
        }
    } else if c == '/' && more && s[i + 1int] == '/' {
        (None, line_end(s, i + 2))
    } else if c == '/' && more && s[i + 1int] == '*' {
        (None, comment_end(s, i + 2, 1))
    } else if c == '"' {
        let j = quote_place(s, i + 1);
        if j < s.len() {
            (Some(TokenM::StrLit(s.subrange(i + 1int, j as int))), j + 1)
        } else {
            (Some(TokenM::Error), s.len())
        }
    } else if c == '0' {
        (Some(TokenM::Number(0)), i + 1)
    } else if is_digit(c) {
        let j = digits_end(s, i);
        (Some(number_token(s.subrange(i as int, j as int))), j)
    } else if begins_word(c) {
        let j = word_end(s, i);
        (Some(token::word_token(s.subrange(i as int, j as int))), j)
    } else if text::occurs_at(s, "@test"@, i as int) {
        (Some(TokenM::TEST_KW), i + "@test"@.len())
    } else if more && double(c, s[i + 1int]) is Some {
        (double(c, s[i + 1int]), i + 2)
    } else {
        (Some(single(c)), i + 1)
    }
}

/// The tokens from `i` on.
pub open spec fn lexed(s: Seq<char>, i: nat) -> Seq<SpannedM>
    decreases s.len() - i,
{
    if i >= s.len() {
        seq![]
    } else {
        proof {
            lemma_advances(s, i);
        }
        let (t, j) = token_at(s, i);
        match t {
            Some(t) => seq![SpannedM { start: i, token: t, end: j }] + lexed(s, j),
            None => lexed(s, j),
        }
    }
}

/// A token takes at least one character, and none past the end.
pub proof fn lemma_advances(s: Seq<char>, i: nat)
    requires
        i < s.len(),
    ensures
        i < token_at(s, i).1 <= s.len(),
{
    lemma_space_end(s, i + 1);
    lemma_line_end(s, i + 2);
    lemma_comment_end(s, i + 2, 1);
    lemma_quote_place(s, i + 1);
    lemma_digits_end(s, i);
    lemma_word_end(s, i);
    lemma_digits_end(s, i + 1);
    lemma_word_end(s, i + 1);
    reveal_strlit("@test");
}

proof fn lemma_space_end(s: Seq<char>, i: nat)
    ensures
        space_end(s, i) >= i,
        i <= s.len() ==> space_end(s, i) <= s.len(),
    decreases s.len() - i,
{
    if i < s.len() && text::is_white(s[i as int]) {
        lemma_space_end(s, i + 1);
    }
}

proof fn lemma_word_end(s: Seq<char>, i: nat)
    ensures
        word_end(s, i) >= i,
        i <= s.len() ==> word_end(s, i) <= s.len(),
    decreases s.len() - i,
{
    if i < s.len() && in_word(s[i as int]) {
        lemma_word_end(s, i + 1);
    }
}

proof fn lemma_digits_end(s: Seq<char>, i: nat)
    ensures
        digits_end(s, i) >= i,
        i <= s.len() ==> digits_end(s, i) <= s.len(),
    decreases s.len() - i,
{
    if i < s.len() && is_digit(s[i as int]) {
        lemma_digits_end(s, i + 1);
    }
}

proof fn lemma_line_end(s: Seq<char>, i: nat)
    ensures
        line_end(s, i) >= i,
        i <= s.len() ==> line_end(s, i) <= s.len(),
    decreases s.len() - i,
{
    if i < s.len() && s[i as int] != '\n' {
        lemma_line_end(s, i + 1);
    }
}

proof fn lemma_comment_end(s: Seq<char>, i: nat, depth: nat)
    ensures
        i <= s.len() ==> i <= comment_end(s, i, depth) <= s.len(),
    decreases s.len() - i,
{
    if i < s.len() {
        lemma_comment_end(s, i + 1, depth);
        if i + 1 < s.len() {
            lemma_comment_end(s, i + 2, depth + 1);
            if depth > 1 {
                lemma_comment_end(s, i + 2, (depth - 1) as nat);
            }
        }
    }
}

proof fn lemma_quote_place(s: Seq<char>, i: nat)
    ensures
        quote_place(s, i) >= i,
        i <= s.len() ==> quote_place(s, i) <= s.len(),
    decreases s.len() - i,
{
    if i < s.len() && s[i as int] != '"' {
        lemma_quote_place(s, i + 1);
    }
}

fn scan_space(s: &Vec<char>, i: usize) -> (r: usize)
    requires
        i <= s@.len(),
    ensures
        r == space_end(s@, i as nat),
        i <= r <= s@.len(),
{
    let mut j: usize = i;
    while j < s.len() && text::white(s[j])
        invariant
            i <= j <= s@.len(),
            space_end(s@, i as nat) == space_end(s@, j as nat),
        decreases s@.len() - j,
    {
        j = j + 1;
    }
    j
}

fn digit(c: char) -> (r: bool)
    ensures
        r == is_digit(c),
{
    '0' <= c && c <= '9'
}

fn word_start(c: char) -> (r: bool)
    ensures
        r == begins_word(c),
{
    ('A' <= c && c <= 'Z') || ('a' <= c && c <= 'z') || c == '_'
}

fn scan_word(s: &Vec<char>, i: usize) -> (r: usize)
    requires
        i <= s@.len(),
    ensures
        r == word_end(s@, i as nat),
        i <= r <= s@.len(),
{
    let mut j: usize = i;
    while j < s.len() && (word_start(s[j]) || digit(s[j]))
        invariant
            i <= j <= s@.len(),
            word_end(s@, i as nat) == word_end(s@, j as nat),
        decreases s@.len() - j,
    {
        j = j + 1;
    }
    j
}

fn scan_digits(s: &Vec<char>, i: usize) -> (r: usize)
    requires
        i <= s@.len(),
    ensures
        r == digits_end(s@, i as nat),
        i <= r <= s@.len(),
        forall|k: int| i <= k < r ==> is_digit(#[trigger] s@[k]),
{
    let mut j: usize = i;
    while j < s.len() && digit(s[j])
        invariant
            i <= j <= s@.len(),
            digits_end(s@, i as nat) == digits_end(s@, j as nat),
            forall|k: int| i <= k < j ==> is_digit(#[trigger] s@[k]),
        decreases s@.len() - j,
    {
        j = j + 1;
    }
    j
}

fn scan_line(s: &Vec<char>, i: usize) -> (r: usize)
    requires
        i <= s@.len(),
    ensures
        r == line_end(s@, i as nat),
        i <= r <= s@.len(),
{
    let mut j: usize = i;
    while j < s.len() && s[j] != '\n'
        invariant
            i <= j <= s@.len(),
            line_end(s@, i as nat) == line_end(s@, j as nat),
        decreases s@.len() - j,
    {
        j = j + 1;
    }
    j
}

fn scan_quote(s: &Vec<char>, i: usize) -> (r: usize)
    requires
        i <= s@.len(),
    ensures
        r == quote_place(s@, i as nat),
        i <= r <= s@.len(),
{
    let mut j: usize = i;
    while j < s.len() && s[j] != '"'
        invariant
            i <= j <= s@.len(),
            quote_place(s@, i as nat) == quote_place(s@, j as nat),
        decreases s@.len() - j,
    {
        j = j + 1;
    }
    j
}

/// Finds the end of a comment whose text begins at `i`; comments nest.
pub fn skip_multi_line_comments(s: &Vec<char>, i: usize) -> (r: usize)
    requires
        i <= s@.len(),
    ensures
        r == comment_end(s@, i as nat, 1),
        i <= r <= s@.len(),
{
    let mut j: usize = i;
    let mut depth: usize = 1;
    while j < s.len()
        invariant
            i <= j <= s@.len(),
            1 <= depth <= j - i + 1,
            comment_end(s@, i as nat, 1) == comment_end(s@, j as nat, depth as nat),
        decreases s@.len() - j,
    {
        if s[j] == '*' && j + 1 < s.len() && s[j + 1] == '/' {
            if depth == 1 {
                return j + 2;
            }
            j = j + 2;
            depth = depth - 1;
        } else if s[j] == '/' && j + 1 < s.len() && s[j + 1] == '*' {
            j = j + 2;
            depth = depth + 1;
        } else {
            j = j + 1;
        }
    }
    s.len()
}

/// A longer numeral stands for a number that is not smaller.
proof fn lemma_number_grows(s: Seq<char>, i: int, j: int, k: int)
    requires
        0 <= i <= j <= k <= s.len(),
    ensures
        number_of(s.subrange(i, k)) >= number_of(s.subrange(i, j)),
    decreases k - j,
{
    if j < k {
        lemma_number_grows(s, i, j, k - 1);
        assert(s.subrange(i, k).drop_last() =~= s.subrange(i, k - 1));
    }
}

/// The token of the numeral from `i` to `j`.
pub fn from_num(s: &Vec<char>, i: usize, j: usize) -> (r: Token)
    requires
        i <= j <= s@.len(),
        forall|k: int| i <= k < j ==> is_digit(#[trigger] s@[k]),
    ensures
        r.deep_view() == number_token(s@.subrange(i as int, j as int)),
{
    let mut n: i64 = 0;
    let mut k: usize = i;
    assert(s@.subrange(i as int, i as int) =~= Seq::<char>::empty());
    while k < j
        invariant
            i <= k <= j <= s@.len(),
            forall|q: int| i <= q < j ==> is_digit(#[trigger] s@[q]),
            0 <= n <= MAX_NUMBER,
            n == number_of(s@.subrange(i as int, k as int)),
        decreases j - k,
    {
        let c = s[k];
        assert(is_digit(s@[k as int]));
        let d: i64 = (c as u32 - '0' as u32) as i64;
        proof {
            let t = s@.subrange(i as int, k + 1);
            assert(t.drop_last() =~= s@.subrange(i as int, k as int));
            assert(t.last() == c);
            lemma_number_grows(s@, i as int, k + 1, j as int);
        }
        n = 10 * n + d;
        k = k + 1;
        if n > MAX_NUMBER {
            return Token::Error;
        }
    }
    if n == MAX_NUMBER {
        Token::Number(i32::MIN)
    } else {
        Token::Number(n as i32)
    }
}

fn single_token(c: char) -> (r: Token)
    ensures
        r.deep_view() == single(c),
{
    if c == '-' {
        Token::Minus
    } else if c == '+' {
        Token::Plus
    } else if c == '*' {
        Token::Asterisk
    } else if c == '/' {
        Token::Div
    } else if c == '=' {
        Token::Assgn
    } else if c == '<' {
        Token::LT
    } else if c == '>' {
        Token::GT
    } else if c == '!' {
        Token::NOT_NOT
    } else if c == '(' {
        Token::LParen
    } else if c == ')' {
        Token::RParen
    } else if c == '{' {
        Token::LBrace
    } else if c == '}' {
        Token::RBrace
    } else if c == '[' {
        Token::LSquare
    } else if c == ']' {
        Token::RSquare
    } else if c == ';' {
        Token::Semicolon
    } else if c == ',' {
        Token::Comma
    } else if c == ':' {
        Token::Colon
    } else if c == '.' {
        Token::Dot
    } else {
        Token::Error
    }
}

fn double_token(c: char, d: char) -> (r: Option<Token>)
    ensures
        r.deep_view() == double(c, d),
{
    if c == '=' && d == '>' {
        Some(Token::Fn_Assgn)
    } else if c == '=' && d == '=' {
        Some(Token::EQ_EQ)
    } else if c == '&' && d == '&' {
        Some(Token::AND_AND)
    } else if c == '|' && d == '|' {
        Some(Token::OR_OR)
    } else {
        None
    }
}

/// What stands at `i`: a token, or something to skip; and where it ends.
fn next_token(s: &Vec<char>, test: &Vec<char>, i: usize) -> (r: (Option<Token>, usize))
    requires
        i < s@.len(),
        test@ == "@test"@,
    ensures
        r.0.deep_view() == token_at(s@, i as nat).0,
        r.1 == token_at(s@, i as nat).1,
        i < r.1 <= s@.len(),
{
    proof {
        lemma_advances(s@, i as nat);
        reveal_strlit("@test");
    }
    let c = s[i];
    let more = s.len() - i > 1;
    if text::white(c) {
        let j = scan_space(s, i + 1);
        if c >= '\u{80}' && j == i + 1 {
            (Some(Token::Error), j)
        } else {
            (None, j)
        }
    } else if c == '/' && more && s[i + 1] == '/' {
        (None, scan_line(s, i + 2))
    } else if c == '/' && more && s[i + 1] == '*' {
        (None, skip_multi_line_comments(s, i + 2))
    } else if c == '"' {
        let j = scan_quote(s, i + 1);
        if j < s.len() {
            (Some(Token::StrLit(text::string_of(s, i + 1, j))), j + 1)
        } else {
            (Some(Token::Error), s.len())
        }
    } else if c == '0' {
        (Some(Token::Number(0)), i + 1)
    } else if digit(c) {
        let j = scan_digits(s, i);
        (Some(from_num(s, i, j)), j)
    } else if word_start(c) {
        let j = scan_word(s, i);
        (Some(token_of_word(text::string_of(s, i, j))), j)
    } else if text::match_at(s, test, i) {
        (Some(Token::TEST_KW), i + test.len())
    } else if more {
        match double_token(c, s[i + 1]) {
            Some(t) => (Some(t), i + 2),
            None => (Some(single_token(c)), i + 1),
        }
    } else {
        (Some(single_token(c)), i + 1)
    }
}

/// Splits a text into tokens.
pub fn lex(s: &Vec<char>) -> (r: Vec<Spanned>)
    ensures
        r.deep_view() == lexed(s@, 0),
{
    let test = text::chars_of("@test");
    let mut out: Vec<Spanned> = Vec::new();
    let mut i: usize = 0;
    assert(out.deep_view() + lexed(s@, 0) =~= lexed(s@, 0));
    while i < s.len()
        invariant
            i <= s@.len(),
            test@ == "@test"@,
            out.deep_view() + lexed(s@, i as nat) == lexed(s@, 0),
        decreases s@.len() - i,
    {
        let ghost before = out.deep_view();
        let (t, j) = next_token(s, &test, i);
        match t {
            Some(t) => {
                let one = Spanned { start: i, token: t, end: j };
                let ghost one1 = one.deep_view();
                out.push(one);
                proof {
                    assert(out.deep_view() =~= before.push(one1));
                    assert(before + (seq![one1] + lexed(s@, j as nat)) =~= before.push(one1)
                        + lexed(s@, j as nat));
                }
            },
            None => {},
        }
        i = j;
    }
    assert(out.deep_view() + Seq::<SpannedM>::empty() =~= out.deep_view());
    out
}

} // verus!
