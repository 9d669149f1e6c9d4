//! Printed parameters read back as themselves: identifiers, measurements,
//! and functions of those, in flat sequences.

use vstd::prelude::*;

use crate::display::{
    digit_char, nat_digits, number_body, number_text, render, render_items, render_seq,
    unit_suffix, zeros,
};
use crate::parser::{parse_from, parse_spec, prepend_params, value_at, ParamV};
use crate::number::{lemma_normal_canonical, normal, pow10, Number, Unit};
use crate::tokenizer::{
    count_points, decimal_number, digit_value, digits_value, fraction_digits, in_class, is_digit,
    is_ident_start, lex_from, lex_spec, prepend_tokens, radix_of, run_end, strip_points, token_at,
    unit_word, CharClass, TokenV,
};

verus! {

proof fn lemma_digits_concat(a: Seq<char>, b: Seq<char>)
    ensures
        digits_value(a + b, 10) == digits_value(a, 10) * pow10(b.len()) + digits_value(b, 10),
    decreases b.len(),
{
    if b.len() == 0 {
        assert(a + b =~= a);
        assert(pow10(0) == 1);
        assert(digits_value(b, 10) == 0);
    } else {
        let b0 = b.drop_last();
        lemma_digits_concat(a, b0);
        assert(digits_value(a + b, 10) == digits_value((a + b).drop_last(), 10) * 10 + digit_value(
            (a + b).last(),
        ));
        assert(digits_value(b, 10) == digits_value(b0, 10) * 10 + digit_value(b.last()));
        assert((a + b).drop_last() =~= a + b0);
        assert((a + b).last() == b.last());
        let x = digits_value(a, 10);
        let p = pow10(b0.len());
        let y = digits_value(b0, 10);
        let d = digit_value(b.last());
        assert(pow10(b.len()) == 10 * p);
        assert((x * p + y) * 10 + d == x * (10 * p) + (y * 10 + d)) by (nonlinear_arith);
    }
}

proof fn lemma_digit_char(d: nat)
    requires
        d < 10,
    ensures
        digit_value(digit_char(d)) == d,
        is_digit(digit_char(d)),
{
}

proof fn lemma_nat_digits(m: nat)
    ensures
        digits_value(nat_digits(m), 10) == m,
        nat_digits(m).len() >= 1,
        forall|i: int| 0 <= i < nat_digits(m).len() ==> is_digit(#[trigger] nat_digits(m)[i]),
        m > 0 ==> nat_digits(m)[0] != '0',
    decreases m,
{
    lemma_digit_char(m % 10);
    if m >= 10 {
        lemma_nat_digits(m / 10);
        let d = nat_digits(m / 10);
        assert(nat_digits(m).drop_last() =~= d);
        assert(nat_digits(m)[0] == d[0]);
        assert(digits_value(nat_digits(m), 10) == digits_value(d, 10) * 10 + digit_value(
            digit_char(m % 10),
        ));
        assert(forall|i: int| 0 <= i < nat_digits(m).len() - 1 ==> nat_digits(m)[i] == d[i]);
    } else {
        assert(nat_digits(m).drop_last() =~= Seq::<char>::empty());
        assert(digits_value(nat_digits(m), 10) == digits_value(Seq::<char>::empty(), 10) * 10
            + digit_value(digit_char(m % 10)));
    }
}

proof fn lemma_zeros(k: nat)
    ensures
        digits_value(zeros(k), 10) == 0,
        forall|i: int| 0 <= i < k ==> #[trigger] zeros(k)[i] == '0',
        zeros(k).len() == k,
    decreases k,
{
    if k > 0 {
        lemma_zeros((k - 1) as nat);
        assert(zeros(k).drop_last() =~= zeros((k - 1) as nat));
    }
}

/// A sequence of digits, with no point.
pub open spec fn all_digits(s: Seq<char>) -> bool {
    forall|i: int| 0 <= i < s.len() ==> is_digit(#[trigger] s[i])
}

proof fn lemma_points_concat(a: Seq<char>, b: Seq<char>)
    requires
        all_digits(b),
    ensures
        strip_points(a + b) == strip_points(a) + b,
        count_points(a + b) == count_points(a),
        fraction_digits(a + b) == fraction_digits(a) + if count_points(a) > 0 {
            b.len()
        } else {
            0
        },
    decreases b.len(),
{
    if b.len() == 0 {
        assert(a + b =~= a);
        assert(strip_points(a) + b =~= strip_points(a));
    } else {
        let b0 = b.drop_last();
        assert(all_digits(b0)) by {
            assert forall|i: int| 0 <= i < b0.len() implies is_digit(#[trigger] b0[i]) by {
                assert(b0[i] == b[i]);
            }
        }
        lemma_points_concat(a, b0);
        assert((a + b).drop_last() =~= a + b0);
        assert((a + b).last() == b.last());
        assert(is_digit(b[b.len() - 1]));
        assert(strip_points(a) + b =~= (strip_points(a) + b0).push(b.last()));
    }
}

proof fn lemma_no_points(s: Seq<char>)
    requires
        all_digits(s),
    ensures
        strip_points(s) == s,
        count_points(s) == 0,
        fraction_digits(s) == 0,
{
    lemma_points_concat(seq![], s);
    assert(Seq::<char>::empty() + s =~= s);
    assert(strip_points(Seq::<char>::empty()) == Seq::<char>::empty());
}

proof fn lemma_normal_shift(negative: bool, m: nat, e: nat, x: int)
    ensures
        normal(negative, m * pow10(e), x) == normal(negative, m, x + e),
    decreases e,
{
    if e > 0 {
        lemma_normal_shift(negative, m, (e - 1) as nat, x + 1);
        let v = m * pow10(e);
        assert(v == (m * pow10((e - 1) as nat)) * 10) by (nonlinear_arith)
            requires
                v == m * pow10(e),
                pow10(e) == 10 * pow10((e - 1) as nat),
        ;
        if m == 0 {
            assert(v == 0);
            assert(m * pow10((e - 1) as nat) == 0);
        } else {
            assert(pow10((e - 1) as nat) >= 1) by {
                crate::number::lemma_pow10_ge(0, (e - 1) as nat);
            }
            assert(v != 0) by (nonlinear_arith)
                requires
                    v == (m * pow10((e - 1) as nat)) * 10,
                    m != 0,
                    pow10((e - 1) as nat) >= 1,
            ;
            assert(v % 10 == 0);
            assert(v / 10 == m * pow10((e - 1) as nat));
        }
    } else {
        assert(pow10(0) == 1);
        assert(m * pow10(0) == m);
    }
}

proof fn lemma_point_suffix(a: Seq<char>)
    requires
        all_digits(a),
    ensures
        strip_points(a.push('.')) == a,
        count_points(a.push('.')) == 1,
        fraction_digits(a.push('.')) == 0,
{
    lemma_no_points(a);
    assert(a.push('.').drop_last() =~= a);
}

/// The sign-free text of a number reads back as its magnitude.
proof fn lemma_body_reads_back(n: Number)
    requires
        n.wf(),
        n.exponent > i64::MIN + 1,
        n.mantissa <= u64::MAX,
        n.exponent >= 0 ==> n.mantissa * pow10(n.exponent as nat) <= u64::MAX,
    ensures
        decimal_number(number_body(n)) == Some(Number { negative: false, ..n }),
        number_body(n).len() >= 1,
        forall|i: int| 0 <= i < number_body(n).len() ==> in_class(#[trigger] number_body(n)[i], CharClass::Decimal),
        is_digit(number_body(n)[0]),
        number_body(n).len() >= 2 ==> radix_of(number_body(n)[1]) is None,
{
    let m = n.mantissa as nat;
    let d = nat_digits(m);
    lemma_nat_digits(m);
    let body = number_body(n);
    if n.exponent >= 0 {
        let e = n.exponent as nat;
        lemma_zeros(e);
        assert(body == d + zeros(e));
        assert(all_digits(body)) by {
            assert forall|i: int| 0 <= i < body.len() implies is_digit(#[trigger] body[i]) by {
                if i < d.len() {
                    assert(body[i] == d[i]);
                } else {
                    assert(body[i] == zeros(e)[i - d.len()]);
                }
            }
        }
        lemma_no_points(body);
        lemma_digits_concat(d, zeros(e));
        lemma_normal_shift(false, m, e, 0);
        lemma_normal_canonical(false, m, e as int);
        assert(body[0] == d[0]);
        assert(digits_value(strip_points(body), 10) == m * pow10(e));
        assert(normal(false, m, e as int) == (false, m, e as int));
    } else {
        let k = -n.exponent;
        if d.len() > k {
            let split = d.len() - k;
            let a = d.subrange(0, split);
            let b = d.subrange(split, d.len() as int);
            assert(body == a.push('.') + b);
            assert(all_digits(a)) by {
                assert forall|i: int| 0 <= i < a.len() implies is_digit(#[trigger] a[i]) by {
                    assert(a[i] == d[i]);
                }
            }
            assert(all_digits(b)) by {
                assert forall|i: int| 0 <= i < b.len() implies is_digit(#[trigger] b[i]) by {
                    assert(b[i] == d[split + i]);
                }
            }
            lemma_point_suffix(a);
            lemma_points_concat(a.push('.'), b);
            assert(a + b =~= d);
            assert(digits_value(strip_points(body), 10) == m);
            assert(fraction_digits(body) == k);
            assert(normal(false, m, -k) == (false, m, -k));
            assert forall|i: int| 0 <= i < body.len() implies in_class(
                #[trigger] body[i],
                CharClass::Decimal,
            ) by {
                if i < split {
                    assert(body[i] == a[i]);
                } else if i > split {
                    assert(body[i] == b[i - split - 1]);
                }
            }
            assert(body[0] == a[0]);
            if body.len() >= 2 {
                if split >= 2 {
                    assert(body[1] == a[1]);
                } else {
                    assert(body[1] == '.');
                }
            }
        } else {
            let z = zeros((k - d.len()) as nat);
            lemma_zeros((k - d.len()) as nat);
            let b = z + d;
            let a = seq!['0'];
            assert(body == a.push('.') + b);
            assert(all_digits(a));
            assert(all_digits(b)) by {
                assert forall|i: int| 0 <= i < b.len() implies is_digit(#[trigger] b[i]) by {
                    if i < z.len() {
                        assert(b[i] == z[i]);
                    } else {
                        assert(b[i] == d[i - z.len()]);
                    }
                }
            }
            lemma_point_suffix(a);
            lemma_points_concat(a.push('.'), b);
            lemma_digits_concat(a, b);
            lemma_digits_concat(z, d);
            assert(digits_value(a, 10) == 0) by {
                assert(a.drop_last() =~= Seq::<char>::empty());
                assert(digits_value(a, 10) == digits_value(a.drop_last(), 10) * 10 + digit_value(
                    a.last(),
                ));
            }
            assert(strip_points(body) == a + b);
            let dz = digits_value(z, 10);
            let da = digits_value(a, 10);
            assert(dz * pow10(d.len()) == 0) by (nonlinear_arith)
                requires
                    dz == 0,
            ;
            assert(digits_value(b, 10) == m);
            assert(da * pow10(b.len()) == 0) by (nonlinear_arith)
                requires
                    da == 0,
            ;
            assert(digits_value(strip_points(body), 10) == m);
            assert(fraction_digits(body) == k);
            assert(normal(false, m, -k) == (false, m, -k));
            assert forall|i: int| 0 <= i < body.len() implies in_class(
                #[trigger] body[i],
                CharClass::Decimal,
            ) by {
                if i >= 2 {
                    assert(body[i] == b[i - 2]);
                }
            }
        }
    }
}

proof fn lemma_run_end(s: Seq<char>, i: int, j: int, k: CharClass)
    requires
        0 <= i <= j <= s.len(),
        forall|x: int| i <= x < j ==> in_class(#[trigger] s[x], k),
        j == s.len() || !in_class(s[j], k),
    ensures
        run_end(s, i, k) == j,
    decreases j - i,
{
    if i < j {
        lemma_run_end(s, i + 1, j, k);
    }
}

/// The tokens of a printed measurement.
pub open spec fn measurement_tokens(n: Number, u: Unit) -> Seq<TokenV> {
    let sign: Seq<TokenV> = if n.negative {
        seq![TokenV::Negator]
    } else {
        seq![]
    };
    let unit: Seq<TokenV> = if u == Unit::Arbitrary {
        seq![]
    } else {
        seq![TokenV::Unit(u)]
    };
    sign + seq![TokenV::Number(Number { negative: false, ..n })] + unit
}

proof fn lemma_suffix(u: Unit)
    ensures
        u != Unit::Arbitrary ==> unit_suffix(u).len() >= 1,
        u == Unit::Arbitrary ==> unit_suffix(u).len() == 0,
        u == Unit::Percent ==> unit_suffix(u) == seq!['%'],
        u != Unit::Percent && u != Unit::Arbitrary ==> unit_word(unit_suffix(u)) == Some(u)
            && forall|i: int|
            0 <= i < unit_suffix(u).len() ==> is_ident_start(#[trigger] unit_suffix(u)[i]),
{
}

/// Text after an item that ends every run the item's last token is read by.
pub open spec fn ends_item(post: Seq<char>) -> bool {
    post.len() == 0 || post[0] == ' '
}

#[verifier::rlimit(60)]
proof fn lemma_measurement_lexes(pre: Seq<char>, n: Number, u: Unit, post: Seq<char>)
    requires
        n.wf(),
        n.exponent > i64::MIN + 1,
        n.mantissa <= u64::MAX,
        n.exponent >= 0 ==> n.mantissa * pow10(n.exponent as nat) <= u64::MAX,
        ends_item(post),
    ensures
        lex_from(pre + number_text(n) + unit_suffix(u) + post, pre.len() as int)
            == prepend_tokens(
            measurement_tokens(n, u),
            lex_from(
                pre + number_text(n) + unit_suffix(u) + post,
                (pre.len() + number_text(n).len() + unit_suffix(u).len()) as int,
            ),
        ),
{
    let body = number_body(n);
    let suffix = unit_suffix(u);
    let s = pre + number_text(n) + suffix + post;
    let p = pre.len() as int;
    let o: int = if n.negative {
        p + 1
    } else {
        p
    };
    let b = body.len() as int;
    lemma_body_reads_back(n);
    lemma_suffix(u);
    let e = o + b + suffix.len();
    assert(body == number_body(Number { negative: false, ..n }));
    assert(e == pre.len() + number_text(n).len() + unit_suffix(u).len());
    assert(s.len() == e + post.len());
    assert forall|x: int| p <= x < o implies #[trigger] s[x] == '-' by {}
    assert forall|x: int| o <= x < o + b implies #[trigger] s[x] == body[x - o] by {}
    assert forall|x: int| o + b <= x < e implies #[trigger] s[x] == suffix[x - o - b] by {}
    assert(e < s.len() ==> s[e] == ' ');
    let number_token = TokenV::Number(Number { negative: false, ..n });
    let after = lex_from(s, e);
    // the number
    lemma_run_end(s, o + 1, o + b, CharClass::Decimal);
    assert(s.subrange(o, o + b) =~= body);
    assert(token_at(s, o) == Ok::<_, crate::errors::Error>((Some(number_token), o + b)));
    // the unit
    let rest: Seq<TokenV> = if u == Unit::Arbitrary {
        seq![]
    } else {
        seq![TokenV::Unit(u)]
    };
    crate::tokenizer::lemma_prepend_tokens(seq![], seq![], after);
    if u != Unit::Arbitrary {
        if u != Unit::Percent {
            lemma_run_end(s, o + b + 1, e, CharClass::Ident);
            assert(s.subrange(o + b, e) =~= suffix);
        }
        assert(token_at(s, o + b) == Ok::<_, crate::errors::Error>((Some(TokenV::Unit(u)), e)));
    }
    assert(lex_from(s, o + b) == prepend_tokens(rest, after));
    crate::tokenizer::lemma_prepend_tokens(seq![number_token], rest, after);
    assert(lex_from(s, o) == prepend_tokens(seq![number_token] + rest, after));
    if n.negative {
        assert(s[p] == '-');
        assert(token_at(s, p) == Ok::<_, crate::errors::Error>((Some(TokenV::Negator), p + 1)));
        crate::tokenizer::lemma_prepend_tokens(seq![TokenV::Negator], seq![number_token] + rest, after);
        assert(seq![TokenV::Negator] + (seq![number_token] + rest) =~= measurement_tokens(n, u));
    } else {
        assert(seq![number_token] + rest =~= measurement_tokens(n, u));
    }
}

proof fn lemma_measurement_value(pre: Seq<TokenV>, n: Number, u: Unit, post: Seq<TokenV>)
    requires
        n.wf(),
        post.len() == 0 || !(post[0] is Unit),
    ensures
        value_at(pre + measurement_tokens(n, u) + post, pre.len() as int) == Ok::<
            _,
            crate::parser::ParseFail,
        >((ParamV::Unit(n, u), (pre.len() + measurement_tokens(n, u).len()) as int)),
{
    let mt = measurement_tokens(n, u);
    let ts = pre + mt + post;
    let p = pre.len() as int;
    let e = p + mt.len();
    assert forall|x: int| 0 <= x < mt.len() implies #[trigger] ts[p + x] == mt[x] by {}
    assert(e < ts.len() ==> ts[e] == post[0]);
    let m = Number { negative: false, ..n };
    if n.negative {
        assert(m.neg_spec() == n);
        assert(ts[p] == TokenV::Negator);
        assert(ts[p + 1] == TokenV::Number(m));
    } else {
        assert(ts[p] == TokenV::Number(m));
    }
}

/// A name the lexer reads as one identifier: letters and hyphens after a
/// leading letter, other than a unit's name.
pub open spec fn is_name(w: Seq<char>) -> bool {
    &&& w.len() >= 1
    &&& is_ident_start(w[0])
    &&& forall|i: int| 0 <= i < w.len() ==> in_class(#[trigger] w[i], CharClass::Ident)
    &&& unit_word(w) is None
}

/// A number the lexer can read back from its printed text: canonical, and
/// with printed digits that fit in `u64`.
pub open spec fn readable(n: Number) -> bool {
    &&& n.wf()
    &&& n.exponent > i64::MIN + 1
    &&& n.mantissa <= u64::MAX
    &&& n.exponent >= 0 ==> n.mantissa * pow10(n.exponent as nat) <= u64::MAX
}

/// A value that is printed as one token run: a measurement with a number
/// the lexer can read, or an identifier the lexer reads as one.
pub open spec fn simple_value(v: ParamV) -> bool {
    match v {
        ParamV::Unit(n, _) => readable(n),
        ParamV::Ident(w) => is_name(w),
        _ => false,
    }
}

/// An item of a flat sequence: a simple value, or a function `name:value`
/// whose value is simple.
pub open spec fn flat_item(f: ParamV) -> bool {
    match f {
        ParamV::Function(name, v) => is_name(name) && simple_value(*v),
        _ => simple_value(f),
    }
}

/// The tokens of a printed simple value.
pub open spec fn value_tokens(v: ParamV) -> Seq<TokenV> {
    match v {
        ParamV::Unit(n, u) => measurement_tokens(n, u),
        _ => seq![TokenV::Ident(v->Ident_0)],
    }
}

/// The tokens of a printed flat item.
pub open spec fn item_tokens(f: ParamV) -> Seq<TokenV> {
    match f {
        ParamV::Function(name, v) => seq![TokenV::Ident(name), TokenV::Colon] + value_tokens(*v),
        _ => value_tokens(f),
    }
}

/// A token that can start a flat item.
pub open spec fn starts_item(t: TokenV) -> bool {
    t is Ident || t is Negator || t is Number
}

proof fn lemma_name_lexes(pre: Seq<char>, w: Seq<char>, post: Seq<char>)
    requires
        is_name(w),
        ends_item(post) || post[0] == ':',
    ensures
        lex_from(pre + w + post, pre.len() as int) == prepend_tokens(
            seq![TokenV::Ident(w)],
            lex_from(pre + w + post, (pre.len() + w.len()) as int),
        ),
{
    let s = pre + w + post;
    let p = pre.len() as int;
    let k = w.len() as int;
    assert forall|x: int| 0 <= x < k implies #[trigger] s[p + x] == w[x] by {}
    assert(p + k < s.len() ==> s[p + k] == post[0]);
    lemma_run_end(s, p + 1, p + k, CharClass::Ident);
    assert(s.subrange(p, p + k) =~= w);
    assert(token_at(s, p) == Ok::<_, crate::errors::Error>((Some(TokenV::Ident(w)), p + k)));
}

proof fn lemma_value_lexes(pre: Seq<char>, v: ParamV, post: Seq<char>)
    requires
        simple_value(v),
        ends_item(post),
    ensures
        lex_from(pre + render(v) + post, pre.len() as int) == prepend_tokens(
            value_tokens(v),
            lex_from(pre + render(v) + post, (pre.len() + render(v).len()) as int),
        ),
{
    match v {
        ParamV::Unit(n, u) => {
            assert(render(v) == number_text(n) + unit_suffix(u));
            assert(pre + render(v) + post =~= pre + number_text(n) + unit_suffix(u) + post);
            lemma_measurement_lexes(pre, n, u, post);
        },
        _ => {
            lemma_name_lexes(pre, v->Ident_0, post);
        },
    }
}

proof fn lemma_item_lexes(pre: Seq<char>, f: ParamV, post: Seq<char>)
    requires
        flat_item(f),
        ends_item(post),
    ensures
        lex_from(pre + render(f) + post, pre.len() as int) == prepend_tokens(
            item_tokens(f),
            lex_from(pre + render(f) + post, (pre.len() + render(f).len()) as int),
        ),
{
    match f {
        ParamV::Function(name, v) => {
            let s = pre + render(f) + post;
            let p = pre.len() as int;
            let k = name.len() as int;
            assert(render(f) == name + seq![':'] + render(*v));
            let pre2 = pre + name + seq![':'];
            let post1 = seq![':'] + render(*v) + post;
            assert(s =~= pre + name + post1);
            lemma_name_lexes(pre, name, post1);
            assert(s[p + k] == ':');
            assert(token_at(s, p + k) == Ok::<_, crate::errors::Error>(
                (Some(TokenV::Colon), p + k + 1),
            ));
            assert(s =~= pre2 + render(*v) + post);
            lemma_value_lexes(pre2, *v, post);
            let vt = value_tokens(*v);
            let after = lex_from(s, p + render(f).len());
            assert(pre2.len() + render(*v).len() == p + render(f).len());
            assert(lex_from(s, p + k + 1) == prepend_tokens(vt, after));
            assert(lex_from(s, p + k) == prepend_tokens(seq![TokenV::Colon], lex_from(s, p + k + 1)));
            crate::tokenizer::lemma_prepend_tokens(seq![TokenV::Colon], vt, after);
            crate::tokenizer::lemma_prepend_tokens(seq![TokenV::Ident(name)], seq![TokenV::Colon] + vt, after);
            assert(seq![TokenV::Ident(name)] + (seq![TokenV::Colon] + vt) =~= item_tokens(f));
        },
        _ => {
            lemma_value_lexes(pre, f, post);
        },
    }
}

proof fn lemma_value_value(pre: Seq<TokenV>, v: ParamV, post: Seq<TokenV>)
    requires
        simple_value(v),
        post.len() == 0 || starts_item(post[0]),
    ensures
        value_at(pre + value_tokens(v) + post, pre.len() as int) == Ok::<_, crate::parser::ParseFail>(
            (v, (pre.len() + value_tokens(v).len()) as int),
        ),
{
    match v {
        ParamV::Unit(n, u) => {
            lemma_measurement_value(pre, n, u, post);
        },
        _ => {
            let ts = pre + value_tokens(v) + post;
            let p = pre.len() as int;
            assert(ts[p] == TokenV::Ident(v->Ident_0));
            assert(p + 1 < ts.len() ==> ts[p + 1] == post[0]);
        },
    }
}

proof fn lemma_item_value(pre: Seq<TokenV>, f: ParamV, post: Seq<TokenV>)
    requires
        flat_item(f),
        post.len() == 0 || starts_item(post[0]),
    ensures
        value_at(pre + item_tokens(f) + post, pre.len() as int) == Ok::<_, crate::parser::ParseFail>(
            (f, (pre.len() + item_tokens(f).len()) as int),
        ),
{
    match f {
        ParamV::Function(name, v) => {
            let ts = pre + item_tokens(f) + post;
            let p = pre.len() as int;
            let pre2 = pre + seq![TokenV::Ident(name), TokenV::Colon];
            assert(ts =~= pre2 + value_tokens(*v) + post);
            lemma_value_value(pre2, *v, post);
            assert(ts[p] == TokenV::Ident(name));
            assert(ts[p + 1] == TokenV::Colon);
        },
        _ => {
            lemma_value_value(pre, f, post);
        },
    }
}

/// The tokens of printed flat items, one after the other.
pub open spec fn seq_tokens(ps: Seq<ParamV>) -> Seq<TokenV>
    decreases ps.len(),
{
    if ps.len() == 0 {
        seq![]
    } else {
        seq_tokens(ps.drop_last()) + item_tokens(ps.last())
    }
}

proof fn lemma_items_step(ps: Seq<ParamV>, j: int)
    requires
        0 <= j < ps.len(),
    ensures
        render_items(ps.subrange(0, j + 1)) == render_items(ps.subrange(0, j)) + seq![' '] + render(
            ps[j],
        ),
        seq_tokens(ps.subrange(0, j + 1)) == seq_tokens(ps.subrange(0, j)) + item_tokens(ps[j]),
{
    assert(ps.subrange(0, j + 1).drop_last() =~= ps.subrange(0, j));
    assert(ps.subrange(0, j + 1).last() == ps[j]);
}

proof fn lemma_items_prefix(ps: Seq<ParamV>, j: int)
    requires
        0 <= j <= ps.len(),
    ensures
        render_items(ps.subrange(0, j)).len() <= render_items(ps).len(),
        render_items(ps).subrange(0, render_items(ps.subrange(0, j)).len() as int)
            == render_items(ps.subrange(0, j)),
        seq_tokens(ps.subrange(0, j)).len() <= seq_tokens(ps).len(),
        seq_tokens(ps).subrange(0, seq_tokens(ps.subrange(0, j)).len() as int) == seq_tokens(
            ps.subrange(0, j),
        ),
    decreases ps.len() - j,
{
    if j == ps.len() {
        assert(ps.subrange(0, j) =~= ps);
        assert(render_items(ps).subrange(0, render_items(ps).len() as int) =~= render_items(ps));
        assert(seq_tokens(ps).subrange(0, seq_tokens(ps).len() as int) =~= seq_tokens(ps));
    } else {
        lemma_items_prefix(ps, j + 1);
        lemma_items_step(ps, j);
        let r0 = render_items(ps.subrange(0, j));
        let r1 = render_items(ps.subrange(0, j + 1));
        let t0 = seq_tokens(ps.subrange(0, j));
        let t1 = seq_tokens(ps.subrange(0, j + 1));
        assert(r1.subrange(0, r0.len() as int) =~= r0);
        assert(t1.subrange(0, t0.len() as int) =~= t0);
        assert(render_items(ps).subrange(0, r0.len() as int) =~= r1.subrange(0, r0.len() as int));
        assert(seq_tokens(ps).subrange(0, t0.len() as int) =~= t1.subrange(0, t0.len() as int));
    }
}

/// Where item `j` starts: the separator before it, and its first token.
proof fn lemma_item_start(ps: Seq<ParamV>, j: int)
    requires
        0 <= j <= ps.len(),
        forall|k: int| 0 <= k < ps.len() ==> flat_item(#[trigger] ps[k]),
    ensures
        render_seq(ps)[render_items(ps.subrange(0, j)).len() as int] == ' ',
        render_items(ps.subrange(0, j)).len() < render_seq(ps).len(),
        j < ps.len() ==> seq_tokens(ps.subrange(0, j)).len() < seq_tokens(ps).len() && starts_item(
            seq_tokens(ps)[seq_tokens(ps.subrange(0, j)).len() as int],
        ),
        j == ps.len() ==> seq_tokens(ps.subrange(0, j)).len() == seq_tokens(ps).len()
            && render_items(ps.subrange(0, j)).len() + 1 == render_seq(ps).len(),
{
    let s = render_seq(ps);
    assert(s == render_items(ps) + seq![' ']);
    if j == ps.len() {
        assert(ps.subrange(0, j) =~= ps);
    } else {
        lemma_items_step(ps, j);
        lemma_items_prefix(ps, j + 1);
        let r0 = render_items(ps.subrange(0, j));
        let r1 = render_items(ps.subrange(0, j + 1));
        assert(r1[r0.len() as int] == ' ');
        assert(render_items(ps)[r0.len() as int] == r1[r0.len() as int]);
        let t0 = seq_tokens(ps.subrange(0, j));
        let t1 = seq_tokens(ps.subrange(0, j + 1));
        assert(t1[t0.len() as int] == item_tokens(ps[j])[0]);
        assert(seq_tokens(ps)[t0.len() as int] == t1[t0.len() as int]);
    }
}

#[verifier::rlimit(80)]
proof fn lemma_lex_items(ps: Seq<ParamV>, j: int)
    requires
        0 <= j <= ps.len(),
        forall|k: int| 0 <= k < ps.len() ==> flat_item(#[trigger] ps[k]),
    ensures
        lex_from(render_seq(ps), render_items(ps.subrange(0, j)).len() as int) == Ok::<
            _,
            crate::errors::Error,
        >(
            seq_tokens(ps).subrange(
                seq_tokens(ps.subrange(0, j)).len() as int,
                seq_tokens(ps).len() as int,
            ),
        ),
    decreases ps.len() - j,
{
    let s = render_seq(ps);
    let t = seq_tokens(ps);
    let p0 = render_items(ps.subrange(0, j)).len() as int;
    let q0 = seq_tokens(ps.subrange(0, j)).len() as int;
    lemma_item_start(ps, j);
    assert(token_at(s, p0) == Ok::<_, crate::errors::Error>((None::<TokenV>, p0 + 1)));
    if j == ps.len() {
        assert(lex_from(s, p0 + 1) == Ok::<_, crate::errors::Error>(Seq::<TokenV>::empty()));
        assert(t.subrange(q0, t.len() as int) =~= Seq::<TokenV>::empty());
    } else {
        lemma_lex_items(ps, j + 1);
        lemma_items_step(ps, j);
        lemma_items_prefix(ps, j + 1);
        lemma_item_start(ps, j + 1);
        let p1 = render_items(ps.subrange(0, j + 1)).len() as int;
        let q1 = seq_tokens(ps.subrange(0, j + 1)).len() as int;
        let f = ps[j];
        let pre = s.subrange(0, p0 + 1);
        let post = s.subrange(p1, s.len() as int);
        let r1 = render_items(ps.subrange(0, j + 1));
        assert(s.subrange(0, p1) == r1) by {
            assert(s.subrange(0, p1) =~= render_items(ps).subrange(0, p1));
        }
        assert(s.subrange(p0 + 1, p1) =~= render(f)) by {
            assert(s.subrange(p0 + 1, p1) =~= r1.subrange(p0 + 1, p1));
        }
        assert(s =~= pre + render(f) + post);
        assert(post[0] == s[p1]);
        lemma_item_lexes(pre, f, post);
        assert(lex_from(s, p0 + 1) == prepend_tokens(item_tokens(f), lex_from(s, p1)));
        let t1 = seq_tokens(ps.subrange(0, j + 1));
        assert(t.subrange(0, q1) == t1);
        assert(t.subrange(q0, q1) =~= item_tokens(f)) by {
            assert(t.subrange(q0, q1) =~= t1.subrange(q0, q1));
        }
        assert(t.subrange(q0, t.len() as int) =~= item_tokens(f) + t.subrange(q1, t.len() as int));
    }
}

#[verifier::rlimit(80)]
proof fn lemma_parse_items(ps: Seq<ParamV>, j: int)
    requires
        0 <= j <= ps.len(),
        forall|k: int| 0 <= k < ps.len() ==> flat_item(#[trigger] ps[k]),
    ensures
        parse_from(seq_tokens(ps), seq_tokens(ps.subrange(0, j)).len() as int) == Ok::<
            _,
            crate::parser::ParseFail,
        >(ps.subrange(j, ps.len() as int)),
    decreases ps.len() - j,
{
    let t = seq_tokens(ps);
    let q0 = seq_tokens(ps.subrange(0, j)).len() as int;
    lemma_item_start(ps, j);
    if j == ps.len() {
        assert(ps.subrange(j, ps.len() as int) =~= Seq::<ParamV>::empty());
    } else {
        lemma_parse_items(ps, j + 1);
        lemma_items_step(ps, j);
        lemma_items_prefix(ps, j + 1);
        lemma_item_start(ps, j + 1);
        let q1 = seq_tokens(ps.subrange(0, j + 1)).len() as int;
        let f = ps[j];
        let t1 = seq_tokens(ps.subrange(0, j + 1));
        assert(t.subrange(0, q1) == t1);
        assert(t.subrange(q0, q1) =~= item_tokens(f)) by {
            assert(t.subrange(q0, q1) =~= t1.subrange(q0, q1));
        }
        let pre = t.subrange(0, q0);
        let post = t.subrange(q1, t.len() as int);
        assert(t =~= pre + item_tokens(f) + post);
        assert(post.len() > 0 ==> post[0] == t[q1]);
        lemma_item_value(pre, f, post);
        assert(value_at(t, q0) == Ok::<_, crate::parser::ParseFail>((f, q1)));
        assert(parse_from(t, q0) == prepend_params(seq![f], parse_from(t, q1)));
        assert(ps.subrange(j, ps.len() as int) =~= seq![f] + ps.subrange(j + 1, ps.len() as int));
    }
}

/// Printing a flat sequence of identifiers, measurements and functions whose
/// value is one of those, such as `h:10px w:-50% x 3 bg-clip:text`, and
/// reading the text back gives the same sequence, for names the lexer reads
/// as one identifier and numbers it can read.
pub proof fn lemma_flat_round_trip(ps: Seq<ParamV>)
    requires
        forall|k: int| 0 <= k < ps.len() ==> flat_item(#[trigger] ps[k]),
    ensures
        lex_spec(render_seq(ps)) == Ok::<_, crate::errors::Error>(seq_tokens(ps)),
        parse_spec(seq_tokens(ps)) == Ok::<_, crate::parser::ParseFail>(ps),
{
    lemma_lex_items(ps, 0);
    lemma_parse_items(ps, 0);
    assert(ps.subrange(0, 0) =~= Seq::<ParamV>::empty());
    assert(render_items(Seq::<ParamV>::empty()) == Seq::<char>::empty());
    assert(seq_tokens(Seq::<ParamV>::empty()) == Seq::<TokenV>::empty());
    assert(seq_tokens(ps).subrange(0, seq_tokens(ps).len() as int) =~= seq_tokens(ps));
    assert(ps.subrange(0, ps.len() as int) =~= ps);
}

} // verus!
