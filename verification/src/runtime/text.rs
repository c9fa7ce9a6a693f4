//! Text: joining, decimal numerals, and searching.

use vstd::prelude::*;
use vstd::string::*;

verus! {

/// `String::push` appends one character to the end of the string.
pub assume_specification[ std::string::String::push ](s: &mut std::string::String, c: char)
    ensures
        final(s)@ == old(s)@.push(c),
;

/// The number of bytes that a text takes in UTF-8.
pub open spec fn byte_len(s: Seq<char>) -> nat {
    vstd::utf8::encode_utf8(s).len()
}

/// The number of bytes of `s`.
pub fn text_bytes(s: &str) -> (n: usize)
    ensures
        n == byte_len(s@),
{
    s.as_bytes().len()
}

/// The characters of `s`.
pub fn chars_of(s: &str) -> (r: Vec<char>)
    ensures
        r@ == s@,
{
    let mut out: Vec<char> = Vec::new();
    for c in it: s.chars()
        invariant
            out@ == it.seq().take(it.index()),
            it.seq() == s@,
    {
        out.push(c);
        assert(it.seq().take(it.index() + 1) =~= it.seq().take(it.index()).push(c));
    }
    assert(s@.take(s@.len() as int) =~= s@);
    out
}

/// The string made of the characters `from..to`.
pub fn string_of(chars: &Vec<char>, from: usize, to: usize) -> (r: String)
    requires
        from <= to <= chars@.len(),
    ensures
        r@ == chars@.subrange(from as int, to as int),
{
    let mut out = String::new();
    let mut i: usize = from;
    while i < to
        invariant
            from <= i <= to <= chars@.len(),
            out@ == chars@.subrange(from as int, i as int),
        decreases to - i,
    {
        out.push(chars[i]);
        assert(chars@.subrange(from as int, i + 1) =~= chars@.subrange(from as int, i as int).push(
            chars@[i as int],
        ));
        i = i + 1;
    }
    out
}

/// `a` followed by `b`.
pub fn cat2(a: &str, b: &str) -> (r: String)
    ensures
        r@ == a@ + b@,
{
    let mut s = a.to_owned();
    s.append(b);
    s
}

/// `a`, `b` and `c`, one after the other.
pub fn cat3(a: &str, b: &str, c: &str) -> (r: String)
    ensures
        r@ == a@ + b@ + c@,
{
    let mut s = cat2(a, b);
    s.append(c);
    s
}

/// Five texts, one after the other.
pub fn cat5(a: &str, b: &str, c: &str, d: &str, e: &str) -> (r: String)
    ensures
        r@ == a@ + b@ + c@ + d@ + e@,
{
    let mut s = cat3(a, b, c);
    s.append(d);
    s.append(e);
    s
}

/// Whether two texts are the same.
pub fn same_text(a: &str, b: &str) -> (r: bool)
    ensures
        r == (a@ == b@),
{
    let x = a.to_owned();
    let y = b.to_owned();
    x == y
}

/// The numeral of one decimal digit.
pub open spec fn digit(d: nat) -> char {
    if d == 0 {
        '0'
    } else if d == 1 {
        '1'
    } else if d == 2 {
        '2'
    } else if d == 3 {
        '3'
    } else if d == 4 {
        '4'
    } else if d == 5 {
        '5'
    } else if d == 6 {
        '6'
    } else if d == 7 {
        '7'
    } else if d == 8 {
        '8'
    } else {
        '9'
    }
}

/// The decimal numeral of a natural number.
pub open spec fn decimal(n: nat) -> Seq<char>
    decreases n,
{
    if n < 10 {
        seq![digit(n)]
    } else {
        decimal(n / 10).push(digit(n % 10))
    }
}

/// The decimal numeral of an integer, with a minus sign below zero.
pub open spec fn decimal_int(i: int) -> Seq<char> {
    if i < 0 {
        seq!['-'] + decimal((-i) as nat)
    } else {
        decimal(i as nat)
    }
}

fn digit_char(d: u64) -> (c: char)
    requires
        d < 10,
    ensures
        c == digit(d as nat),
{
    if d == 0 {
        '0'
    } else if d == 1 {
        '1'
    } else if d == 2 {
        '2'
    } else if d == 3 {
        '3'
    } else if d == 4 {
        '4'
    } else if d == 5 {
        '5'
    } else if d == 6 {
        '6'
    } else if d == 7 {
        '7'
    } else if d == 8 {
        '8'
    } else {
        '9'
    }
}

/// Writes `n` in decimal.
pub fn u64_text(n: u64) -> (r: String)
    ensures
        r@ == decimal(n as nat),
    decreases n,
{
    if n < 10 {
        let mut s = String::new();
        s.push(digit_char(n));
        assert(s@ =~= seq![digit(n as nat)]);
        s
    } else {
        let mut s = u64_text(n / 10);
        s.push(digit_char(n % 10));
        s
    }
}

/// Writes `n` in decimal.
pub fn usize_text(n: usize) -> (r: String)
    ensures
        r@ == decimal(n as nat),
{
    u64_text(n as u64)
}

/// Writes `n` in decimal.
pub fn i32_text(n: i32) -> (r: String)
    ensures
        r@ == decimal_int(n as int),
{
    if n < 0 {
        let m: u64 = (-(n as i64)) as u64;
        let d = u64_text(m);
        let mut s = String::new();
        s.push('-');
        s.append(d.as_str());
        assert(s@ =~= seq!['-'] + decimal(m as nat));
        s
    } else {
        u64_text(n as u64)
    }
}

/// `true` and `false`, written out.
pub open spec fn bool_numeral(b: bool) -> Seq<char> {
    if b {
        "true"@
    } else {
        "false"@
    }
}

/// Writes a truth value.
pub fn bool_text(b: bool) -> (r: String)
    ensures
        r@ == bool_numeral(b),
{
    if b {
        "true".to_owned()
    } else {
        "false".to_owned()
    }
}

/// Whether `pat` occurs in `s` at position `i`.
pub open spec fn occurs_at(s: Seq<char>, pat: Seq<char>, i: int) -> bool {
    0 <= i && i + pat.len() <= s.len() && s.subrange(i, i + pat.len()) == pat
}

/// Whether `s` begins with `pat`.
pub open spec fn begins_with(s: Seq<char>, pat: Seq<char>) -> bool {
    occurs_at(s, pat, 0)
}

/// Whether `pat` occurs somewhere in `s`.
pub open spec fn occurs_in(s: Seq<char>, pat: Seq<char>) -> bool {
    exists|i: int| #[trigger] occurs_at(s, pat, i)
}

/// Tests for an occurrence of `pat` at position `i`.
pub fn match_at(s: &Vec<char>, pat: &Vec<char>, i: usize) -> (r: bool)
    ensures
        r == occurs_at(s@, pat@, i as int),
{
    if i > s.len() || pat.len() > s.len() - i {
        return false;
    }
    let mut k: usize = 0;
    while k < pat.len()
        invariant
            i + pat@.len() <= s@.len() <= usize::MAX,
            k <= pat@.len(),
            forall|j: int| 0 <= j < k ==> s@[i + j] == pat@[j],
        decreases pat@.len() - k,
    {
        if s[i + k] != pat[k] {
            proof {
                assert(s@.subrange(i as int, i + pat@.len())[k as int] != pat@[k as int]);
            }
            return false;
        }
        k = k + 1;
    }
    assert(s@.subrange(i as int, i + pat@.len()) =~= pat@);
    true
}

/// Tests for an occurrence of `pat` at position `i` of the first `len` characters.
pub fn match_at_within(s: &Vec<char>, pat: &Vec<char>, i: usize, len: usize) -> (r: bool)
    requires
        len <= s@.len(),
    ensures
        r == occurs_at(s@.take(len as int), pat@, i as int),
{
    let r = i <= len && pat.len() <= len - i && match_at(s, pat, i);
    if i <= len && pat.len() <= len - i {
        assert(s@.take(len as int).subrange(i as int, i + pat@.len()) =~= s@.subrange(
            i as int,
            i + pat@.len(),
        ));
    }
    r
}

/// Whether `s` begins with `pat`.
pub fn starts_with(s: &str, pat: &str) -> (r: bool)
    ensures
        r == begins_with(s@, pat@),
{
    match_at(&chars_of(s), &chars_of(pat), 0)
}

/// Whether `pat` occurs in `s`.
pub fn contains_text(s: &str, pat: &str) -> (r: bool)
    ensures
        r == occurs_in(s@, pat@),
{
    let c = chars_of(s);
    let p = chars_of(pat);
    let mut i: usize = 0;
    while i < c.len()
        invariant
            c@ == s@,
            p@ == pat@,
            i <= c@.len(),
            forall|j: int| 0 <= j < i ==> !occurs_at(s@, pat@, j),
        decreases c@.len() - i,
    {
        if match_at(&c, &p, i) {
            return true;
        }
        i = i + 1;
    }
    match_at(&c, &p, i)
}

/// `s` from position `i` on, with the leftmost, non-overlapping occurrences of
/// `pat` replaced by `with`.
pub open spec fn replaced_from(s: Seq<char>, pat: Seq<char>, with: Seq<char>, i: int) -> Seq<char>
    decreases s.len() - i,
{
    if i < 0 || i >= s.len() {
        seq![]
    } else if pat.len() > 0 && occurs_at(s, pat, i) {
        with + replaced_from(s, pat, with, i + pat.len())
    } else {
        seq![s[i]] + replaced_from(s, pat, with, i + 1)
    }
}

/// `s` with every occurrence of `pat` replaced by `with`, leftmost first.
pub open spec fn replaced(s: Seq<char>, pat: Seq<char>, with: Seq<char>) -> Seq<char> {
    replaced_from(s, pat, with, 0)
}

/// Replaces every occurrence of the non-empty text `pat` by `with`.
pub fn replace_text(s: &str, pat: &str, with: &str) -> (r: String)
    requires
        pat@.len() > 0,
    ensures
        r@ == replaced(s@, pat@, with@),
{
    let c = chars_of(s);
    let p = chars_of(pat);
    let mut out = String::new();
    let mut i: usize = 0;
    while i < c.len()
        invariant
            c@ == s@,
            p@ == pat@,
            pat@.len() > 0,
            i <= c@.len(),
            out@ + replaced_from(s@, pat@, with@, i as int) == replaced(s@, pat@, with@),
        decreases c@.len() - i,
    {
        let ghost before = out@;
        if match_at(&c, &p, i) {
            out.append(with);
            i = i + p.len();
            proof {
                assert(before + (with@ + replaced_from(s@, pat@, with@, i as int)) =~= out@
                    + replaced_from(s@, pat@, with@, i as int));
            }
        } else {
            out.push(c[i]);
            i = i + 1;
            proof {
                assert(before + (seq![s@[i - 1]] + replaced_from(s@, pat@, with@, i as int))
                    =~= out@ + replaced_from(s@, pat@, with@, i as int));
            }
        }
    }
    assert(out@ + Seq::<char>::empty() =~= out@);
    out
}

/// Whether a character is white space in Unicode.
pub open spec fn is_white(c: char) -> bool {
    ('\u{9}' <= c && c <= '\u{d}') || c == ' ' || c == '\u{85}' || c == '\u{a0}' || c == '\u{1680}'
        || ('\u{2000}' <= c && c <= '\u{200a}') || c == '\u{2028}' || c == '\u{2029}' || c
        == '\u{202f}' || c == '\u{205f}' || c == '\u{3000}'
}

/// Whether a character is white space.
pub fn white(c: char) -> (r: bool)
    ensures
        r == is_white(c),
{
    ('\u{9}' <= c && c <= '\u{d}') || c == ' ' || c == '\u{85}' || c == '\u{a0}' || c == '\u{1680}'
        || ('\u{2000}' <= c && c <= '\u{200a}') || c == '\u{2028}' || c == '\u{2029}' || c
        == '\u{202f}' || c == '\u{205f}' || c == '\u{3000}'
}

/// Whether a text has nothing but white space.
pub open spec fn is_blank(s: Seq<char>) -> bool {
    forall|i: int| 0 <= i < s.len() ==> is_white(#[trigger] s[i])
}

/// Whether a text has nothing but white space.
pub fn blank(s: &str) -> (r: bool)
    ensures
        r == is_blank(s@),
{
    let c = chars_of(s);
    for i in 0..c.len()
        invariant
            c@ == s@,
            forall|j: int| 0 <= j < i ==> is_white(#[trigger] s@[j]),
    {
        if !white(c[i]) {
            assert(!is_white(s@[i as int]));
            return false;
        }
    }
    true
}

/// A text without the white space at its end.
pub open spec fn without_end(s: Seq<char>) -> Seq<char>
    decreases s.len(),
{
    if s.len() > 0 && is_white(s.last()) {
        without_end(s.drop_last())
    } else {
        s
    }
}

/// Leaves out the white space at the end.
pub fn trim_white_end(s: &str) -> (r: String)
    ensures
        r@ == without_end(s@),
{
    let c = chars_of(s);
    let mut n: usize = c.len();
    assert(s@.take(n as int) =~= s@);
    while n > 0 && white(c[n - 1])
        invariant
            c@ == s@,
            n <= c@.len(),
            without_end(s@.take(n as int)) == without_end(s@),
        decreases n,
    {
        assert(s@.take(n as int).drop_last() =~= s@.take(n - 1));
        n = n - 1;
    }
    let r = string_of(&c, 0, n);
    assert(s@.subrange(0, n as int) =~= s@.take(n as int));
    r
}

/// A text is kept up to the first place where the pattern occurs; there the
/// replacement stands, and it goes on behind the pattern in the same way. A text
/// in which the pattern does not occur is kept.
pub proof fn law_replaced(s: Seq<char>, pat: Seq<char>, with: Seq<char>, i: int)
    requires
        pat.len() > 0,
        0 <= i <= s.len(),
        forall|k: int| 0 <= k < i ==> !#[trigger] occurs_at(s, pat, k),
    ensures
        occurs_at(s, pat, i) ==> replaced(s, pat, with) == s.take(i) + with + replaced(
            s.skip(i + pat.len()),
            pat,
            with,
        ),
        i == s.len() ==> replaced(s, pat, with) == s,
{
    lemma_kept(s, pat, with, 0, i);
    assert(s.subrange(0, i) =~= s.take(i));
    if occurs_at(s, pat, i) {
        lemma_replaced_skip(s, pat, with, i + pat.len(), i + pat.len());
        assert(replaced(s, pat, with) =~= s.take(i) + with + replaced(
            s.skip(i + pat.len()),
            pat,
            with,
        ));
    }
    if i == s.len() {
        assert(replaced(s, pat, with) =~= s);
    }
}

proof fn lemma_kept(s: Seq<char>, pat: Seq<char>, with: Seq<char>, j: int, i: int)
    requires
        pat.len() > 0,
        0 <= j <= i <= s.len(),
        forall|k: int| j <= k < i ==> !#[trigger] occurs_at(s, pat, k),
    ensures
        replaced_from(s, pat, with, j) == s.subrange(j, i) + replaced_from(s, pat, with, i),
    decreases i - j,
{
    let rest = replaced_from(s, pat, with, i);
    if j < i {
        assert(!occurs_at(s, pat, j));
        lemma_kept(s, pat, with, j + 1, i);
        assert(replaced_from(s, pat, with, j) =~= s.subrange(j, i) + rest);
    } else {
        assert(s.subrange(j, i) + rest =~= rest);
    }
}

proof fn lemma_replaced_skip(s: Seq<char>, pat: Seq<char>, with: Seq<char>, k: int, i: int)
    requires
        pat.len() > 0,
        0 <= k <= i,
        k <= s.len(),
    ensures
        replaced_from(s, pat, with, i) == replaced_from(s.skip(k), pat, with, i - k),
    decreases s.len() - i,
{
    let t = s.skip(k);
    if i < s.len() {
        assert(occurs_at(s, pat, i) == occurs_at(t, pat, i - k)) by {
            if i + pat.len() <= s.len() {
                assert(s.subrange(i, i + pat.len()) =~= t.subrange(i - k, i - k + pat.len()));
            }
        }
        if occurs_at(s, pat, i) {
            lemma_replaced_skip(s, pat, with, k, i + pat.len());
        } else {
            lemma_replaced_skip(s, pat, with, k, i + 1);
        }
    }
}

/// What is taken off the end of a text is white space, and no more of it is left
/// there.
pub proof fn law_end_is_taken_off(s: Seq<char>)
    ensures
        without_end(s).is_prefix_of(s),
        is_blank(s.skip(without_end(s).len() as int)),
        without_end(s).len() > 0 ==> !is_white(without_end(s).last()),
    decreases s.len(),
{
    if s.len() > 0 && is_white(s.last()) {
        let d = s.drop_last();
        law_end_is_taken_off(d);
        let n = without_end(s).len() as int;
        assert(without_end(s) =~= s.subrange(0, n));
        assert forall|i: int| 0 <= i < s.skip(n).len() implies is_white(
            #[trigger] s.skip(n)[i],
        ) by {
            if n + i < d.len() {
                assert(d.skip(n)[i] == s.skip(n)[i]);
            }
        }
    } else {
        assert(s =~= s.subrange(0, s.len() as int));
    }
}

/// A text stays as it is where a pattern is replaced by itself.
pub proof fn law_replaced_by_itself(s: Seq<char>, pat: Seq<char>)
    requires
        pat.len() > 0,
    ensures
        replaced(s, pat, pat) == s,
{
    lemma_by_itself(s, pat, 0);
    assert(s.skip(0) =~= s);
}

proof fn lemma_by_itself(s: Seq<char>, pat: Seq<char>, i: int)
    requires
        pat.len() > 0,
        0 <= i <= s.len(),
    ensures
        replaced_from(s, pat, pat, i) == s.skip(i),
    decreases s.len() - i,
{
    if i < s.len() {
        if occurs_at(s, pat, i) {
            lemma_by_itself(s, pat, i + pat.len());
            assert(s.skip(i) =~= s.subrange(i, i + pat.len()) + s.skip(i + pat.len()));
        } else {
            lemma_by_itself(s, pat, i + 1);
            assert(s.skip(i) =~= seq![s[i]] + s.skip(i + 1));
        }
    } else {
        assert(s.skip(i) =~= seq![]);
    }
}

} // verus!
