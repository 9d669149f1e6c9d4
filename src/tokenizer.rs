//! The lexer: source text to tokens, with bracketed spans lexed recursively.

use vstd::prelude::*;

use crate::chars::{chars_of, is_white, is_whitespace, string_of};
use crate::errors::{Error, Unexpected};
use crate::number::{lemma_normal_canonical, normal, Number, Unit};

verus! {

/// Fixed-vocabulary keywords. The lexer recognises none yet: `Reserved` holds
/// the place of the vocabulary to come and is never produced from text.
#[derive(Clone, Copy, Debug, PartialEq, Eq)]
pub enum Keyword {
    Reserved,
}

#[derive(Debug, PartialEq)]
pub enum Token {
    Negator,
    Colon,
    At,
    String(String),
    Ident(String),
    Number(Number),
    /// The tokens of a parenthesised span.
    Group(Vec<Token>),
    /// The tokens of a braced span.
    Block(Vec<Token>),
    Keyword(Keyword),
    Unit(Unit),
}

/// The mathematical model of a [`Token`].
pub enum TokenV {
    Negator,
    Colon,
    At,
    Str(Seq<char>),
    Ident(Seq<char>),
    Number(Number),
    Group(Seq<TokenV>),
    Block(Seq<TokenV>),
    Keyword(Keyword),
    Unit(Unit),
}

impl View for Token {
    type V = TokenV;

    open spec fn view(&self) -> TokenV
        decreases self,
    {
        match self {
            Token::Negator => TokenV::Negator,
            Token::Colon => TokenV::Colon,
            Token::At => TokenV::At,
            Token::String(s) => TokenV::Str(s@),
            Token::Ident(s) => TokenV::Ident(s@),
            Token::Number(n) => TokenV::Number(*n),
            Token::Group(v) => TokenV::Group(tokens_view(v@)),
            Token::Block(v) => TokenV::Block(tokens_view(v@)),
            Token::Keyword(k) => TokenV::Keyword(*k),
            Token::Unit(u) => TokenV::Unit(*u),
        }
    }
}

pub open spec fn tokens_view(s: Seq<Token>) -> Seq<TokenV>
    decreases s,
{
    if s.len() == 0 {
        seq![]
    } else {
        tokens_view(s.drop_last()).push(s.last()@)
    }
}

pub open spec fn lexed(r: Result<Vec<Token>, Error>) -> Result<Seq<TokenV>, Error> {
    match r {
        Ok(v) => Ok(tokens_view(v@)),
        Err(e) => Err(e),
    }
}

pub open spec fn is_ident_start(c: char) -> bool {
    ('a' <= c && c <= 'z') || ('A' <= c && c <= 'Z')
}

pub open spec fn is_digit(c: char) -> bool {
    '0' <= c && c <= '9'
}

/// The characters that may continue a run of each kind.
#[derive(Clone, Copy)]
pub enum CharClass {
    Ident,
    Decimal,
    Hex,
}

pub open spec fn in_class(c: char, k: CharClass) -> bool {
    match k {
        CharClass::Ident => is_ident_start(c) || c == '-',
        CharClass::Decimal => is_digit(c) || c == '.',
        CharClass::Hex => is_digit(c) || ('a' <= c && c <= 'f') || ('A' <= c && c <= 'F'),
    }
}

/// The end of the longest run of characters of class `k` that starts at `i`.
pub open spec fn run_end(s: Seq<char>, i: int, k: CharClass) -> int
    decreases s.len() - i,
{
    if 0 <= i < s.len() && in_class(s[i], k) {
        run_end(s, i + 1, k)
    } else {
        i
    }
}

/// The unit that a word names, if any.
pub open spec fn unit_word(w: Seq<char>) -> Option<Unit> {
    if w.len() == 2 {
        if w[0] == 'p' && w[1] == 'x' {
            Some(Unit::Px)
        } else if w[0] == 'p' && w[1] == 'c' {
            Some(Unit::Pc)
        } else if w[0] == 'p' && w[1] == 't' {
            Some(Unit::Pt)
        } else if w[0] == 'i' && w[1] == 'n' {
            Some(Unit::In)
        } else if w[0] == 'c' && w[1] == 'm' {
            Some(Unit::Cm)
        } else if w[0] == 'm' && w[1] == 'm' {
            Some(Unit::Mm)
        } else if w[0] == 'v' && w[1] == 'h' {
            Some(Unit::Vh)
        } else if w[0] == 'v' && w[1] == 'w' {
            Some(Unit::Vw)
        } else if w[0] == 'e' && w[1] == 'm' {
            Some(Unit::Em)
        } else {
            None
        }
    } else if w.len() == 3 {
        if w[0] == 'r' && w[1] == 'e' && w[2] == 'm' {
            Some(Unit::Rem)
        } else if w[0] == 'd' && w[1] == 'e' && w[2] == 'g' {
            Some(Unit::Deg)
        } else {
            None
        }
    } else if w.len() == 4 && w[0] == 'v' && w[1] == 'm' {
        if w[2] == 'i' && w[3] == 'n' {
            Some(Unit::VMin)
        } else if w[2] == 'a' && w[3] == 'x' {
            Some(Unit::VMax)
        } else {
            None
        }
    } else {
        None
    }
}

/// The value of a digit character in bases up to sixteen; `16` for any other character.
pub open spec fn digit_value(c: char) -> nat {
    if is_digit(c) {
        (c as nat - '0' as nat) as nat
    } else if 'a' <= c && c <= 'f' {
        (c as nat - 'a' as nat + 10) as nat
    } else if 'A' <= c && c <= 'F' {
        (c as nat - 'A' as nat + 10) as nat
    } else {
        16
    }
}

/// The value of a string of digits in base `radix`.
pub open spec fn digits_value(d: Seq<char>, radix: nat) -> nat
    decreases d.len(),
{
    if d.len() == 0 {
        0
    } else {
        digits_value(d.drop_last(), radix) * radix + digit_value(d.last())
    }
}

pub open spec fn all_below(d: Seq<char>, radix: nat) -> bool {
    forall|k: int| 0 <= k < d.len() ==> digit_value(#[trigger] d[k]) < radix
}

/// The number that the digits after a radix prefix denote, when there is at
/// least one, they are all valid in that radix, and the value fits in `u64`.
pub open spec fn radix_number(d: Seq<char>, radix: nat) -> Option<Number> {
    if d.len() > 0 && all_below(d, radix) && digits_value(d, radix) <= u64::MAX {
        Some(Number::from_parts(normal(false, digits_value(d, radix), 0)))
    } else {
        None
    }
}

/// The radix that a character after a leading `0` selects.
pub open spec fn radix_of(c: char) -> Option<u32> {
    if c == 'o' {
        Some(8)
    } else if c == 'x' {
        Some(16)
    } else if c == 'b' {
        Some(2)
    } else {
        None
    }
}

/// The characters of `t` other than decimal points.
pub open spec fn strip_points(t: Seq<char>) -> Seq<char>
    decreases t.len(),
{
    if t.len() == 0 {
        seq![]
    } else if t.last() == '.' {
        strip_points(t.drop_last())
    } else {
        strip_points(t.drop_last()).push(t.last())
    }
}

pub open spec fn count_points(t: Seq<char>) -> nat
    decreases t.len(),
{
    if t.len() == 0 {
        0
    } else if t.last() == '.' {
        count_points(t.drop_last()) + 1
    } else {
        count_points(t.drop_last())
    }
}

/// The number of digits after the first decimal point.
pub open spec fn fraction_digits(t: Seq<char>) -> nat
    decreases t.len(),
{
    if t.len() == 0 {
        0
    } else if t.last() != '.' && count_points(t.drop_last()) > 0 {
        fraction_digits(t.drop_last()) + 1
    } else {
        fraction_digits(t.drop_last())
    }
}

/// The number that a run of decimal digits with at most one point denotes,
/// when its digits fit in `u128` and its canonical mantissa in `u64`.
pub open spec fn decimal_number(t: Seq<char>) -> Option<Number> {
    let v = digits_value(strip_points(t), 10);
    let p = normal(false, v, -(fraction_digits(t) as int));
    if count_points(t) <= 1 && v <= u128::MAX && fraction_digits(t) < i64::MAX && p.1
        <= u64::MAX {
        Some(Number::from_parts(p))
    } else {
        None
    }
}

pub open spec fn prepend_chars(p: Seq<char>, r: Option<(Seq<char>, int)>) -> Option<(Seq<char>, int)> {
    match r {
        Some((t, j)) => Some((p + t, j)),
        None => None,
    }
}

/// The text of a bracketed span read from `i` at nesting `depth`, up to the
/// bracket that closes it, and the index after that bracket. A backslash
/// makes the next character plain text. `None` when the input ends first.
pub open spec fn enclosed(s: Seq<char>, i: int, depth: nat, open: char, close: char) -> Option<
    (Seq<char>, int),
>
    decreases s.len() - i,
{
    if i < 0 || i >= s.len() {
        None
    } else if s[i] == open {
        prepend_chars(seq![open], enclosed(s, i + 1, depth + 1, open, close))
    } else if s[i] == close {
        if depth <= 1 {
            Some((seq![], i + 1))
        } else {
            prepend_chars(seq![close], enclosed(s, i + 1, (depth - 1) as nat, open, close))
        }
    } else if s[i] == '\\' {
        if i + 1 < s.len() {
            prepend_chars(seq![s[i + 1]], enclosed(s, i + 2, depth, open, close))
        } else {
            None
        }
    } else {
        prepend_chars(seq![s[i]], enclosed(s, i + 1, depth, open, close))
    }
}

/// The text of a string literal read from `i` up to its closing quote, and the
/// index after that quote. A backslash makes the next character plain text.
/// `None` when the input ends first.
pub open spec fn quoted(s: Seq<char>, i: int) -> Option<(Seq<char>, int)>
    decreases s.len() - i,
{
    if i < 0 || i >= s.len() {
        None
    } else if s[i] == '"' {
        Some((seq![], i + 1))
    } else if s[i] == '\\' {
        if i + 1 < s.len() {
            prepend_chars(seq![s[i + 1]], quoted(s, i + 2))
        } else {
            None
        }
    } else {
        prepend_chars(seq![s[i]], quoted(s, i + 1))
    }
}

/// How many bracketed spans may stand inside one another.
pub const MAX_NESTING: usize = 128;

/// The token that starts at `i` (`None` for white space) and the index after
/// it, where the text stands inside `depth` bracketed spans.
pub open spec fn token_in(s: Seq<char>, i: int, depth: nat) -> Result<(Option<TokenV>, int), Error>
    decreases s.len(), s.len() - i, 0nat,
{
    if i < 0 || i >= s.len() {
        Err(Error::UnexpectedEOF)
    } else {
        let c = s[i];
        if is_white(c) {
            Ok((None, i + 1))
        } else if c == '-' {
            Ok((Some(TokenV::Negator), i + 1))
        } else if c == '@' {
            Ok((Some(TokenV::At), i + 1))
        } else if c == ':' {
            Ok((Some(TokenV::Colon), i + 1))
        } else if c == '%' {
            Ok((Some(TokenV::Unit(Unit::Percent)), i + 1))
        } else if is_ident_start(c) {
            let j = run_end(s, i + 1, CharClass::Ident);
            let w = s.subrange(i, j);
            match unit_word(w) {
                Some(u) => Ok((Some(TokenV::Unit(u)), j)),
                None => Ok((Some(TokenV::Ident(w)), j)),
            }
        } else if is_digit(c) {
            if c == '0' && i + 1 < s.len() && radix_of(s[i + 1]) is Some {
                let j = run_end(s, i + 2, CharClass::Hex);
                match radix_number(s.subrange(i + 2, j), radix_of(s[i + 1])->0 as nat) {
                    Some(n) => Ok((Some(TokenV::Number(n)), j)),
                    None => Err(Error::IncorrectNumber),
                }
            } else {
                let j = run_end(s, i + 1, CharClass::Decimal);
                match decimal_number(s.subrange(i, j)) {
                    Some(n) => Ok((Some(TokenV::Number(n)), j)),
                    None => Err(Error::IncorrectNumber),
                }
            }
        } else if (c == '(' || c == '{') && depth >= MAX_NESTING {
            Err(Error::NestingTooDeep)
        } else if c == '(' || c == '{' {
            let close = if c == '(' { ')' } else { '}' };
            match enclosed(s, i + 1, 1, c, close) {
                None => Err(Error::UnexpectedEOF),
                Some((body, j)) => if body.len() < s.len() {
                    match lex_in(body, 0, depth + 1) {
                        Ok(ts) => Ok(
                            (
                                Some(
                                    if c == '(' {
                                        TokenV::Group(ts)
                                    } else {
                                        TokenV::Block(ts)
                                    },
                                ),
                                j,
                            ),
                        ),
                        Err(e) => Err(e),
                    }
                } else {
                    Err(Error::UnexpectedEOF)
                },
            }
        } else if c == '"' {
            match quoted(s, i + 1) {
                None => Err(Error::UnexpectedEOF),
                Some((t, j)) => Ok((Some(TokenV::Str(t)), j)),
            }
        } else if c == '$' {
            Err(Error::NotSupported)
        } else {
            Err(Error::Unexpected(Unexpected::Char(c)))
        }
    }
}

pub open spec fn prepend_tokens(p: Seq<TokenV>, r: Result<Seq<TokenV>, Error>) -> Result<
    Seq<TokenV>,
    Error,
> {
    match r {
        Ok(t) => Ok(p + t),
        Err(e) => Err(e),
    }
}

/// The tokens of `s` from index `i` on, where the text stands inside `depth`
/// bracketed spans, or the first error met.
pub open spec fn lex_in(s: Seq<char>, i: int, depth: nat) -> Result<Seq<TokenV>, Error>
    decreases s.len(), s.len() - i, 1nat,
{
    if i < 0 || i >= s.len() {
        Ok(seq![])
    } else {
        match token_in(s, i, depth) {
            Err(e) => Err(e),
            Ok((t, j)) => if i < j <= s.len() {
                let rest = lex_in(s, j, depth);
                match t {
                    Some(t) => prepend_tokens(seq![t], rest),
                    None => rest,
                }
            } else {
                Err(Error::UnexpectedEOF)
            },
        }
    }
}

/// The token that starts at `i` of top-level text.
pub open spec fn token_at(s: Seq<char>, i: int) -> Result<(Option<TokenV>, int), Error> {
    token_in(s, i, 0)
}

/// The tokens of top-level text from index `i` on.
pub open spec fn lex_from(s: Seq<char>, i: int) -> Result<Seq<TokenV>, Error> {
    lex_in(s, i, 0)
}

/// The tokens of source text, or the first error met.
pub open spec fn lex_spec(s: Seq<char>) -> Result<Seq<TokenV>, Error> {
    lex_from(s, 0)
}

pub open spec fn opt_view(t: Option<Token>) -> Option<TokenV> {
    match t {
        Some(t) => Some(t@),
        None => None,
    }
}

pub proof fn lemma_prepend_tokens(a: Seq<TokenV>, b: Seq<TokenV>, r: Result<Seq<TokenV>, Error>)
    ensures
        prepend_tokens(a, prepend_tokens(b, r)) == prepend_tokens(a + b, r),
        prepend_tokens(seq![], r) == r,
{
    if let Ok(t) = r {
        assert(a + (b + t) =~= (a + b) + t);
        assert(seq![] + t =~= t);
    }
}

proof fn lemma_prepend_chars(a: Seq<char>, b: Seq<char>, r: Option<(Seq<char>, int)>)
    ensures
        prepend_chars(a, prepend_chars(b, r)) == prepend_chars(a + b, r),
{
    if let Some((t, j)) = r {
        assert(a + (b + t) =~= (a + b) + t);
    }
}

fn in_class_exec(c: char, k: CharClass) -> (r: bool)
    ensures
        r == in_class(c, k),
{
    match k {
        CharClass::Ident => ('a' <= c && c <= 'z') || ('A' <= c && c <= 'Z') || c == '-',
        CharClass::Decimal => ('0' <= c && c <= '9') || c == '.',
        CharClass::Hex => ('0' <= c && c <= '9') || ('a' <= c && c <= 'f') || ('A' <= c && c
            <= 'F'),
    }
}

fn scan_run(s: &Vec<char>, i: usize, k: CharClass) -> (j: usize)
    requires
        i <= s@.len(),
    ensures
        j == run_end(s@, i as int, k),
        i <= j <= s@.len(),
{
    let mut j = i;
    while j < s.len() && in_class_exec(s[j], k)
        invariant
            i <= j <= s@.len(),
            run_end(s@, i as int, k) == run_end(s@, j as int, k),
        decreases s@.len() - j,
    {
        j = j + 1;
    }
    j
}

fn copy_range(s: &Vec<char>, i: usize, j: usize) -> (r: Vec<char>)
    requires
        i <= j <= s@.len(),
    ensures
        r@ == s@.subrange(i as int, j as int),
{
    let mut r: Vec<char> = Vec::new();
    let mut k = i;
    while k < j
        invariant
            i <= k <= j <= s@.len(),
            r@ == s@.subrange(i as int, k as int),
        decreases j - k,
    {
        r.push(s[k]);
        k = k + 1;
        assert(r@ =~= s@.subrange(i as int, k as int));
    }
    r
}

fn unit_of(s: &Vec<char>, i: usize, j: usize) -> (r: Option<Unit>)
    requires
        i <= j <= s@.len(),
    ensures
        r == unit_word(s@.subrange(i as int, j as int)),
{
    let n = j - i;
    if n == 2 {
        let (a, b) = (s[i], s[i + 1]);
        if a == 'p' && b == 'x' {
            Some(Unit::Px)
        } else if a == 'p' && b == 'c' {
            Some(Unit::Pc)
        } else if a == 'p' && b == 't' {
            Some(Unit::Pt)
        } else if a == 'i' && b == 'n' {
            Some(Unit::In)
        } else if a == 'c' && b == 'm' {
            Some(Unit::Cm)
        } else if a == 'm' && b == 'm' {
            Some(Unit::Mm)
        } else if a == 'v' && b == 'h' {
            Some(Unit::Vh)
        } else if a == 'v' && b == 'w' {
            Some(Unit::Vw)
        } else if a == 'e' && b == 'm' {
            Some(Unit::Em)
        } else {
            None
        }
    } else if n == 3 {
        let (a, b, c) = (s[i], s[i + 1], s[i + 2]);
        if a == 'r' && b == 'e' && c == 'm' {
            Some(Unit::Rem)
        } else if a == 'd' && b == 'e' && c == 'g' {
            Some(Unit::Deg)
        } else {
            None
        }
    } else if n == 4 && s[i] == 'v' && s[i + 1] == 'm' {
        let (c, d) = (s[i + 2], s[i + 3]);
        if c == 'i' && d == 'n' {
            Some(Unit::VMin)
        } else if c == 'a' && d == 'x' {
            Some(Unit::VMax)
        } else {
            None
        }
    } else {
        None
    }
}

fn digit_of(c: char) -> (r: u64)
    ensures
        r == digit_value(c),
{
    if '0' <= c && c <= '9' {
        (c as u64) - ('0' as u64)
    } else if 'a' <= c && c <= 'f' {
        (c as u64) - ('a' as u64) + 10
    } else if 'A' <= c && c <= 'F' {
        (c as u64) - ('A' as u64) + 10
    } else {
        16
    }
}

/// Appends a digit to an accumulated value, or reports that the value no longer fits.
fn push_digit(v: u64, over: bool, d: u64, radix: u64) -> (r: (u64, bool))
    requires
        1 <= radix <= 16,
        d <= 16,
    ensures
        !over ==> (!r.1 ==> r.0 == v * radix + d) && (r.1 ==> v * radix + d > u64::MAX),
        over ==> r.1,
{
    if over {
        (v, true)
    } else if v > (u64::MAX - d) / radix {
        assert(v * radix + d > u64::MAX) by (nonlinear_arith)
            requires
                v > (u64::MAX - d) as int / radix as int,
                1 <= radix,
                d <= 16,
        ;
        (v, true)
    } else {
        assert(v * radix + d <= u64::MAX) by (nonlinear_arith)
            requires
                v <= (u64::MAX - d) as int / radix as int,
                1 <= radix,
                d <= 16,
        ;
        (v * radix + d, false)
    }
}

/// Appends a decimal digit to a `u128` value, or reports that it no longer fits.
fn push_decimal_digit(v: u128, over: bool, d: u64) -> (r: (u128, bool))
    requires
        d <= 16,
    ensures
        !over ==> (!r.1 ==> r.0 == v * 10 + d) && (r.1 ==> v * 10 + d > u128::MAX),
        over ==> r.1,
{
    let d = d as u128;
    if over {
        (v, true)
    } else if v > (u128::MAX - d) / 10 {
        assert(v * 10 + d > u128::MAX) by (nonlinear_arith)
            requires
                v > (u128::MAX - d) as int / 10,
                d <= 16,
        ;
        (v, true)
    } else {
        assert(v * 10 + d <= u128::MAX) by (nonlinear_arith)
            requires
                v <= (u128::MAX - d) as int / 10,
                d <= 16,
        ;
        (v * 10 + d, false)
    }
}

proof fn lemma_still_over(a: nat, radix: nat, d: nat, bound: nat)
    requires
        a > bound,
        radix >= 1,
    ensures
        a * radix + d > bound,
{
    assert(a * radix >= a) by (nonlinear_arith)
        requires
            radix >= 1,
    ;
}

fn radix_value(s: &Vec<char>, i: usize, j: usize, radix: u32) -> (r: Option<Number>)
    requires
        i <= j <= s@.len(),
        radix == 2 || radix == 8 || radix == 16,
    ensures
        r == radix_number(s@.subrange(i as int, j as int), radix as nat),
{
    let mut v: u64 = 0;
    let mut over = false;
    let mut bad = false;
    let mut k = i;
    assert(s@.subrange(i as int, i as int).len() == 0);
    while k < j
        invariant
            i <= k <= j <= s@.len(),
            radix == 2 || radix == 8 || radix == 16,
            bad <==> !all_below(s@.subrange(i as int, k as int), radix as nat),
            !over ==> v == digits_value(s@.subrange(i as int, k as int), radix as nat),
            over ==> digits_value(s@.subrange(i as int, k as int), radix as nat) > u64::MAX,
        decreases j - k,
    {
        let ghost prev = s@.subrange(i as int, k as int);
        let ghost next = s@.subrange(i as int, k + 1);
        assert(next.drop_last() =~= prev);
        assert(next.last() == s@[k as int]);
        let d = digit_of(s[k]);
        if d >= radix as u64 {
            bad = true;
            assert(next[k - i] == s@[k as int]);
        }
        proof {
            if over {
                lemma_still_over(digits_value(prev, radix as nat), radix as nat, d as nat, u64::MAX as nat);
            }
            if !bad {
                assert forall|m: int| 0 <= m < next.len() implies digit_value(#[trigger] next[m])
                    < radix as nat by {
                    if m < prev.len() {
                        assert(next[m] == prev[m]);
                    }
                }
            } else if d < radix as u64 {
                let m = choose|m: int| 0 <= m < prev.len() && digit_value(#[trigger] prev[m])
                    >= radix as nat;
                assert(next[m] == prev[m]);
            }
        }
        let (nv, no) = push_digit(v, over, d, radix as u64);
        v = nv;
        over = no;
        k = k + 1;
    }
    proof {
        lemma_normal_canonical(false, v as nat, 0);
    }
    if i == j || bad || over {
        None
    } else {
        Some(Number::normalize(false, v as u128, 0))
    }
}

fn decimal_value(s: &Vec<char>, i: usize, j: usize) -> (r: Option<Number>)
    requires
        i <= j <= s@.len(),
    ensures
        r == decimal_number(s@.subrange(i as int, j as int)),
{
    let mut v: u128 = 0;
    let mut over = false;
    let mut points: usize = 0;
    let mut frac: usize = 0;
    let mut k = i;
    assert(s@.subrange(i as int, i as int) =~= Seq::<char>::empty());
    while k < j
        invariant
            i <= k <= j <= s@.len(),
            points == count_points(s@.subrange(i as int, k as int)),
            frac == fraction_digits(s@.subrange(i as int, k as int)),
            points <= k - i,
            frac <= k - i,
            !over ==> v == digits_value(strip_points(s@.subrange(i as int, k as int)), 10),
            over ==> digits_value(strip_points(s@.subrange(i as int, k as int)), 10) > u128::MAX,
        decreases j - k,
    {
        let ghost prev = s@.subrange(i as int, k as int);
        let ghost next = s@.subrange(i as int, k + 1);
        assert(next.drop_last() =~= prev);
        assert(next.last() == s@[k as int]);
        let c = s[k];
        if c == '.' {
            points = points + 1;
        } else {
            if points > 0 {
                frac = frac + 1;
            }
            let d = digit_of(c);
            proof {
                let sp = strip_points(prev);
                assert(strip_points(next).drop_last() =~= sp);
                if over {
                    lemma_still_over(digits_value(sp, 10), 10, d as nat, u128::MAX as nat);
                }
            }
            let (nv, no) = push_decimal_digit(v, over, d);
            v = nv;
            over = no;
        }
        k = k + 1;
    }
    proof {
        lemma_normal_canonical(false, v as nat, -(frac as int));
    }
    if points > 1 || over || frac as u128 >= i64::MAX as u128 {
        None
    } else {
        let n = Number::normalize(false, v, -(frac as i64));
        if n.mantissa > u64::MAX as u128 {
            None
        } else {
            Some(n)
        }
    }
}

fn scan_enclosed(s: &Vec<char>, start: usize, open: char, close: char) -> (r: Option<
    (Vec<char>, usize),
>)
    requires
        1 <= start <= s@.len(),
    ensures
        match r {
            Some((b, j)) => enclosed(s@, start as int, 1, open, close) == Some((b@, j as int))
                && b@.len() < s@.len() && start < j <= s@.len(),
            None => enclosed(s@, start as int, 1, open, close) is None,
        },
{
    let mut acc: Vec<char> = Vec::new();
    let mut depth: usize = 1;
    let mut i = start;
    assert(prepend_chars(seq![], enclosed(s@, start as int, 1, open, close)) == enclosed(
        s@,
        start as int,
        1,
        open,
        close,
    )) by {
        if let Some((t, j)) = enclosed(s@, start as int, 1, open, close) {
            assert(Seq::<char>::empty() + t =~= t);
        }
    }
    loop
        invariant
            1 <= start <= i <= s@.len(),
            1 <= depth <= i - start + 1,
            acc@.len() <= i - start,
            enclosed(s@, start as int, 1, open, close) == prepend_chars(
                acc@,
                enclosed(s@, i as int, depth as nat, open, close),
            ),
        decreases s@.len() - i,
    {
        if i >= s.len() {
            return None;
        }
        let c = s[i];
        if c == open {
            proof {
                lemma_prepend_chars(acc@, seq![open], enclosed(s@, i + 1, (depth + 1) as nat, open, close));
            }
            acc.push(open);
            depth = depth + 1;
            i = i + 1;
        } else if c == close {
            if depth <= 1 {
                assert(acc@ + Seq::<char>::empty() =~= acc@);
                return Some((acc, i + 1));
            }
            proof {
                lemma_prepend_chars(acc@, seq![close], enclosed(s@, i + 1, (depth - 1) as nat, open, close));
            }
            acc.push(close);
            depth = depth - 1;
            i = i + 1;
        } else if c == '\\' {
            if i + 1 >= s.len() {
                return None;
            }
            let e = s[i + 1];
            proof {
                lemma_prepend_chars(acc@, seq![e], enclosed(s@, i + 2, depth as nat, open, close));
            }
            acc.push(e);
            i = i + 2;
        } else {
            proof {
                lemma_prepend_chars(acc@, seq![c], enclosed(s@, i + 1, depth as nat, open, close));
            }
            acc.push(c);
            i = i + 1;
        }
    }
}

fn scan_quoted(s: &Vec<char>, start: usize) -> (r: Option<(Vec<char>, usize)>)
    requires
        start <= s@.len(),
    ensures
        match r {
            Some((t, j)) => quoted(s@, start as int) == Some((t@, j as int)) && start < j
                <= s@.len(),
            None => quoted(s@, start as int) is None,
        },
{
    let mut acc: Vec<char> = Vec::new();
    let mut i = start;
    assert(prepend_chars(seq![], quoted(s@, start as int)) == quoted(s@, start as int)) by {
        if let Some((t, j)) = quoted(s@, start as int) {
            assert(Seq::<char>::empty() + t =~= t);
        }
    }
    loop
        invariant
            start <= i <= s@.len(),
            quoted(s@, start as int) == prepend_chars(acc@, quoted(s@, i as int)),
        decreases s@.len() - i,
    {
        if i >= s.len() {
            return None;
        }
        let c = s[i];
        if c == '"' {
            assert(acc@ + Seq::<char>::empty() =~= acc@);
            return Some((acc, i + 1));
        } else if c == '\\' {
            if i + 1 >= s.len() {
                return None;
            }
            let e = s[i + 1];
            proof {
                lemma_prepend_chars(acc@, seq![e], quoted(s@, i + 2));
            }
            acc.push(e);
            i = i + 2;
        } else {
            proof {
                lemma_prepend_chars(acc@, seq![c], quoted(s@, i + 1));
            }
            acc.push(c);
            i = i + 1;
        }
    }
}

fn next_token(s: &Vec<char>, i: usize, depth: usize) -> (r: Result<(Option<Token>, usize), Error>)
    requires
        i < s@.len(),
        depth <= MAX_NESTING,
    ensures
        match r {
            Ok((t, j)) => token_in(s@, i as int, depth as nat) == Ok::<_, Error>(
                (opt_view(t), j as int),
            ) && i < j
                <= s@.len(),
            Err(e) => token_in(s@, i as int, depth as nat) == Err::<(Option<TokenV>, int), Error>(e),
        },
    decreases s@.len(), 0nat,
{
    let n = s.len();
    let c = s[i];
    if is_whitespace(c) {
        Ok((None, i + 1))
    } else if c == '-' {
        Ok((Some(Token::Negator), i + 1))
    } else if c == '@' {
        Ok((Some(Token::At), i + 1))
    } else if c == ':' {
        Ok((Some(Token::Colon), i + 1))
    } else if c == '%' {
        Ok((Some(Token::Unit(Unit::Percent)), i + 1))
    } else if ('a' <= c && c <= 'z') || ('A' <= c && c <= 'Z') {
        let j = scan_run(s, i + 1, CharClass::Ident);
        match unit_of(s, i, j) {
            Some(u) => Ok((Some(Token::Unit(u)), j)),
            None => Ok((Some(Token::Ident(string_of(&copy_range(s, i, j)))), j)),
        }
    } else if '0' <= c && c <= '9' {
        let radix: Option<u32> = if c == '0' && i + 1 < s.len() {
            let p = s[i + 1];
            if p == 'o' {
                Some(8)
            } else if p == 'x' {
                Some(16)
            } else if p == 'b' {
                Some(2)
            } else {
                None
            }
        } else {
            None
        };
        match radix {
            Some(radix) => {
                let j = scan_run(s, i + 2, CharClass::Hex);
                match radix_value(s, i + 2, j, radix) {
                    Some(n) => Ok((Some(Token::Number(n)), j)),
                    None => Err(Error::IncorrectNumber),
                }
            },
            None => {
                let j = scan_run(s, i + 1, CharClass::Decimal);
                match decimal_value(s, i, j) {
                    Some(n) => Ok((Some(Token::Number(n)), j)),
                    None => Err(Error::IncorrectNumber),
                }
            },
        }
    } else if (c == '(' || c == '{') && depth >= MAX_NESTING {
        Err(Error::NestingTooDeep)
    } else if c == '(' || c == '{' {
        let close = if c == '(' {
            ')'
        } else {
            '}'
        };
        match scan_enclosed(s, i + 1, c, close) {
            None => Err(Error::UnexpectedEOF),
            Some((body, j)) => match lex_chars(&body, depth + 1) {
                Ok(ts) => if c == '(' {
                    Ok((Some(Token::Group(ts)), j))
                } else {
                    Ok((Some(Token::Block(ts)), j))
                },
                Err(e) => Err(e),
            },
        }
    } else if c == '"' {
        match scan_quoted(s, i + 1) {
            None => Err(Error::UnexpectedEOF),
            Some((t, j)) => Ok((Some(Token::String(string_of(&t))), j)),
        }
    } else if c == '$' {
        Err(Error::NotSupported)
    } else {
        Err(Error::Unexpected(Unexpected::Char(c)))
    }
}

fn lex_chars(s: &Vec<char>, depth: usize) -> (r: Result<Vec<Token>, Error>)
    requires
        depth <= MAX_NESTING,
    ensures
        lexed(r) == lex_in(s@, 0, depth as nat),
    decreases s@.len(), 1nat,
{
    let mut out: Vec<Token> = Vec::new();
    let mut i: usize = 0;
    proof {
        lemma_prepend_tokens(seq![], seq![], lex_in(s@, 0, depth as nat));
        assert(tokens_view(out@) =~= seq![]);
    }
    while i < s.len()
        invariant
            i <= s@.len(),
            depth <= MAX_NESTING,
            lex_in(s@, 0, depth as nat) == prepend_tokens(tokens_view(out@), lex_in(s@, i as int, depth as nat)),
        decreases s@.len() - i,
    {
        match next_token(s, i, depth) {
            Err(e) => {
                return Err(e);
            },
            Ok((t, j)) => {
                match t {
                    Some(t) => {
                        proof {
                            lemma_prepend_tokens(tokens_view(out@), seq![t@], lex_in(s@, j as int, depth as nat));
                            assert(out@.push(t).drop_last() =~= out@);
                            assert(tokens_view(out@) + seq![t@] =~= tokens_view(out@).push(t@));
                        }
                        out.push(t);
                    },
                    None => {},
                }
                i = j;
            },
        }
    }
    proof {
        assert(tokens_view(out@) + seq![] =~= tokens_view(out@));
    }
    Ok(out)
}

/// Splits source text into tokens. White space separates tokens and is
/// dropped; a parenthesised or braced span becomes one token that holds the
/// tokens of its text. Spans may stand at most [`MAX_NESTING`] deep.
pub fn lex(input: String) -> (r: Result<Vec<Token>, Error>)
    ensures
        lexed(r) == lex_spec(input@),
{
    let s = chars_of(input.as_str());
    lex_chars(&s, 0)
}

} // verus!
