//! The textual rendering of parameters.

use vstd::prelude::*;

use crate::chars::string_of;
use crate::number::{Number, Unit};
use crate::parser::{params_view, ParamV, Parameter};
use crate::tokenizer::Keyword;

verus! {

/// The quoted, escaped form of a string, as its `Debug` form writes it.
pub uninterp spec fn debug_quoted(s: Seq<char>) -> Seq<char>;

/// Relies on `Debug` for `str`: the quoted form depends on the characters alone.
#[verifier::external_body]
fn push_debug_quoted(s: &str, out: &mut Vec<char>)
    ensures
        final(out)@ == old(out)@ + debug_quoted(s@),
{
    out.extend(format!("{:?}", s).chars());
}

pub open spec fn digit_char(d: nat) -> char {
    if d == 0 {
        '0'
    } else if d == 1 {
        '1'
    } else if d == 2 {
        '2'
    } else if d == 3 {
        '3'
    } else if d == 4 {
        '4'
    } else if d == 5 {
        '5'
    } else if d == 6 {
        '6'
    } else if d == 7 {
        '7'
    } else if d == 8 {
        '8'
    } else {
        '9'
    }
}

/// The decimal digits of `m`, without leading zeros.
pub open spec fn nat_digits(m: nat) -> Seq<char>
    decreases m,
{
    if m < 10 {
        seq![digit_char(m)]
    } else {
        nat_digits(m / 10).push(digit_char(m % 10))
    }
}

pub open spec fn zeros(k: nat) -> Seq<char> {
    Seq::new(k, |i: int| '0')
}

/// The digits of a number's magnitude, with a point only where there is a fraction.
pub open spec fn number_body(n: Number) -> Seq<char> {
    let d = nat_digits(n.mantissa as nat);
    if n.exponent >= 0 {
        d + zeros(n.exponent as nat)
    } else {
        let k = -n.exponent;
        if d.len() > k {
            d.subrange(0, d.len() - k) + seq!['.'] + d.subrange(d.len() - k, d.len() as int)
        } else {
            seq!['0', '.'] + zeros((k - d.len()) as nat) + d
        }
    }
}

/// Positional decimal notation: `-` for negative numbers, then [`number_body`].
pub open spec fn number_text(n: Number) -> Seq<char> {
    if n.negative {
        seq!['-'] + number_body(n)
    } else {
        number_body(n)
    }
}

pub open spec fn unit_suffix(u: Unit) -> Seq<char> {
    match u {
        Unit::Px => seq!['p', 'x'],
        Unit::Pc => seq!['p', 'c'],
        Unit::Pt => seq!['p', 't'],
        Unit::In => seq!['i', 'n'],
        Unit::Cm => seq!['c', 'm'],
        Unit::Mm => seq!['m', 'm'],
        Unit::Vh => seq!['v', 'h'],
        Unit::Vw => seq!['v', 'w'],
        Unit::VMin => seq!['v', 'm', 'i', 'n'],
        Unit::VMax => seq!['v', 'm', 'a', 'x'],
        Unit::Rem => seq!['r', 'e', 'm'],
        Unit::Em => seq!['e', 'm'],
        Unit::Deg => seq!['d', 'e', 'g'],
        Unit::Percent => seq!['%'],
        Unit::Arbitrary => seq![],
    }
}

pub open spec fn keyword_text(k: Keyword) -> Seq<char> {
    seq!['R', 'e', 's', 'e', 'r', 'v', 'e', 'd']
}

/// The text of a parameter.
pub open spec fn render(p: ParamV) -> Seq<char>
    decreases p,
{
    match p {
        ParamV::Unit(n, u) => number_text(n) + unit_suffix(u),
        ParamV::Ident(s) => s,
        ParamV::Str(s) => debug_quoted(s),
        ParamV::Keyword(k) => keyword_text(k),
        ParamV::Function(name, v) => name + seq![':'] + render(*v),
        ParamV::Procedural(name, ps, v) => name + seq!['('] + render_items(ps) + seq![' ', ')', ':']
            + render(*v),
        ParamV::Group(items) => seq!['('] + render_items(items) + seq![' ', ')'],
        ParamV::Injected(s) => seq!['@'] + debug_quoted(s),
    }
}

/// Each item preceded by a space.
pub open spec fn render_items(ps: Seq<ParamV>) -> Seq<char>
    decreases ps,
{
    if ps.len() == 0 {
        seq![]
    } else {
        render_items(ps.drop_last()) + seq![' '] + render(ps.last())
    }
}

/// A sequence of parameters: each preceded by a space, and one space at the end.
pub open spec fn render_seq(ps: Seq<ParamV>) -> Seq<char> {
    render_items(ps) + seq![' ']
}

fn digit_of_value(d: u64) -> (c: char)
    requires
        d < 10,
    ensures
        c == digit_char(d as nat),
{
    match d {
        0 => '0',
        1 => '1',
        2 => '2',
        3 => '3',
        4 => '4',
        5 => '5',
        6 => '6',
        7 => '7',
        8 => '8',
        _ => '9',
    }
}

fn push_digits(m: u128, out: &mut Vec<char>)
    ensures
        final(out)@ == old(out)@ + nat_digits(m as nat),
    decreases m,
{
    if m >= 10 {
        push_digits(m / 10, out);
    }
    out.push(digit_of_value((m % 10) as u64));
    assert(final(out)@ =~= old(out)@ + nat_digits(m as nat));
}

fn push_zeros(k: u64, out: &mut Vec<char>)
    ensures
        final(out)@ == old(out)@ + zeros(k as nat),
{
    let ghost start = out@;
    let mut i: u64 = 0;
    while i < k
        invariant
            i <= k,
            out@ == start + zeros(i as nat),
        decreases k - i,
    {
        out.push('0');
        i = i + 1;
        assert(out@ =~= start + zeros(i as nat));
    }
}

fn push_chars(s: &Vec<char>, from: usize, to: usize, out: &mut Vec<char>)
    requires
        from <= to <= s@.len(),
    ensures
        final(out)@ == old(out)@ + s@.subrange(from as int, to as int),
{
    let ghost start = out@;
    let mut i = from;
    while i < to
        invariant
            from <= i <= to <= s@.len(),
            out@ == start + s@.subrange(from as int, i as int),
        decreases to - i,
    {
        out.push(s[i]);
        i = i + 1;
        assert(out@ =~= start + s@.subrange(from as int, i as int));
    }
}

fn push_str(s: &String, out: &mut Vec<char>)
    ensures
        final(out)@ == old(out)@ + s@,
{
    let v = crate::chars::chars_of(s.as_str());
    push_chars(&v, 0, v.len(), out);
    assert(v@.subrange(0, v@.len() as int) =~= v@);
}

fn number_body_chars(n: Number) -> (b: Vec<char>)
    ensures
        b@ == number_body(n),
{
    let mut d: Vec<char> = Vec::new();
    push_digits(n.mantissa, &mut d);
    assert(d@ =~= nat_digits(n.mantissa as nat));
    let ghost ds = d@;
    let mut b: Vec<char> = Vec::new();
    if n.exponent >= 0 {
        push_chars(&d, 0, d.len(), &mut b);
        push_zeros(n.exponent as u64, &mut b);
        assert(ds.subrange(0, ds.len() as int) =~= ds);
        assert(b@ =~= ds + zeros(n.exponent as nat));
    } else {
        let k: u128 = (-(n.exponent as i128)) as u128;
        if d.len() as u128 > k {
            let split = d.len() - k as usize;
            push_chars(&d, 0, split, &mut b);
            b.push('.');
            push_chars(&d, split, d.len(), &mut b);
            assert(b@ =~= ds.subrange(0, split as int) + seq!['.'] + ds.subrange(
                split as int,
                ds.len() as int,
            ));
        } else {
            b.push('0');
            b.push('.');
            push_zeros((k - d.len() as u128) as u64, &mut b);
            push_chars(&d, 0, d.len(), &mut b);
            assert(ds.subrange(0, ds.len() as int) =~= ds);
            assert(b@ =~= seq!['0', '.'] + zeros((k - ds.len()) as nat) + ds);
        }
    }
    b
}

fn push_number(n: Number, out: &mut Vec<char>)
    ensures
        final(out)@ == old(out)@ + number_text(n),
{
    let b = number_body_chars(n);
    if n.negative {
        out.push('-');
    }
    push_chars(&b, 0, b.len(), out);
    assert(b@.subrange(0, b@.len() as int) =~= b@);
    assert(final(out)@ =~= old(out)@ + number_text(n));
}

fn push_suffix(u: Unit, out: &mut Vec<char>)
    ensures
        final(out)@ == old(out)@ + unit_suffix(u),
{
    match u {
        Unit::Px => {
            out.push('p');
            out.push('x');
        },
        Unit::Pc => {
            out.push('p');
            out.push('c');
        },
        Unit::Pt => {
            out.push('p');
            out.push('t');
        },
        Unit::In => {
            out.push('i');
            out.push('n');
        },
        Unit::Cm => {
            out.push('c');
            out.push('m');
        },
        Unit::Mm => {
            out.push('m');
            out.push('m');
        },
        Unit::Vh => {
            out.push('v');
            out.push('h');
        },
        Unit::Vw => {
            out.push('v');
            out.push('w');
        },
        Unit::VMin => {
            out.push('v');
            out.push('m');
            out.push('i');
            out.push('n');
        },
        Unit::VMax => {
            out.push('v');
            out.push('m');
            out.push('a');
            out.push('x');
        },
        Unit::Rem => {
            out.push('r');
            out.push('e');
            out.push('m');
        },
        Unit::Em => {
            out.push('e');
            out.push('m');
        },
        Unit::Deg => {
            out.push('d');
            out.push('e');
            out.push('g');
        },
        Unit::Percent => {
            out.push('%');
        },
        Unit::Arbitrary => {},
    }
    assert(final(out)@ =~= old(out)@ + unit_suffix(u));
}

fn push_param(p: &Parameter, out: &mut Vec<char>)
    ensures
        final(out)@ == old(out)@ + render(p@),
    decreases p,
{
    let ghost before = out@;
    match p {
        Parameter::Unit(n, u) => {
            push_number(*n, out);
            push_suffix(*u, out);
        },
        Parameter::Ident(s) => {
            push_str(s, out);
        },
        Parameter::String(s) => {
            push_debug_quoted(s.as_str(), out);
        },
        Parameter::Keyword(_) => {
            out.push('R');
            out.push('e');
            out.push('s');
            out.push('e');
            out.push('r');
            out.push('v');
            out.push('e');
            out.push('d');
        },
        Parameter::Function { name, parameter } => {
            push_str(name, out);
            out.push(':');
            push_param(parameter, out);
        },
        Parameter::ProceduralFunction { name, procedural_parameters, parameter } => {
            push_str(name, out);
            out.push('(');
            {
                let v = procedural_parameters;
                let ghost start = out@;
                let mut k: usize = 0;
                assert(v@.subrange(0, 0) =~= Seq::<Parameter>::empty());
                assert(start + render_items(params_view(v@.subrange(0, 0))) =~= start);
                while k < v.len()
                    invariant
                        k <= v@.len(),
                        p is ProceduralFunction && p->procedural_parameters == *v,
                        out@ == start + render_items(params_view(v@.subrange(0, k as int))),
                    decreases v@.len() - k,
                {
                    proof {
                        let pk = v@.subrange(0, k as int);
                        assert(v@.subrange(0, k + 1).drop_last() =~= pk);
                        let pv = params_view(pk);
                        assert(pv.push(v[k as int]@).drop_last() =~= pv);
                    }
                    out.push(' ');
                    push_param(&v[k], out);
                    k = k + 1;
                    assert(out@ =~= start + render_items(params_view(v@.subrange(0, k as int))));
                }
                assert(v@.subrange(0, v@.len() as int) =~= v@);
            }
            out.push(' ');
            out.push(')');
            out.push(':');
            push_param(parameter, out);
        },
        Parameter::Group(v) => {
            out.push('(');
            {
                let ghost start = out@;
                let mut k: usize = 0;
                assert(v@.subrange(0, 0) =~= Seq::<Parameter>::empty());
                assert(start + render_items(params_view(v@.subrange(0, 0))) =~= start);
                while k < v.len()
                    invariant
                        k <= v@.len(),
                        p is Group && p->Group_0 == *v,
                        out@ == start + render_items(params_view(v@.subrange(0, k as int))),
                    decreases v@.len() - k,
                {
                    proof {
                        let pk = v@.subrange(0, k as int);
                        assert(v@.subrange(0, k + 1).drop_last() =~= pk);
                        let pv = params_view(pk);
                        assert(pv.push(v[k as int]@).drop_last() =~= pv);
                    }
                    out.push(' ');
                    push_param(&v[k], out);
                    k = k + 1;
                    assert(out@ =~= start + render_items(params_view(v@.subrange(0, k as int))));
                }
                assert(v@.subrange(0, v@.len() as int) =~= v@);
            }
            out.push(' ');
            out.push(')');
        },
        Parameter::InjectedCSS(s) => {
            out.push('@');
            push_debug_quoted(s.as_str(), out);
        },
    }
    assert(out@ =~= before + render(p@));
}

impl Parameter {
    /// The text of the parameter; see [`render`].
    pub fn to_string(&self) -> (r: String)
        ensures
            r@ == render(self@),
    {
        let mut out: Vec<char> = Vec::new();
        push_param(self, &mut out);
        assert(out@ =~= Seq::<char>::empty() + render(self@));
        string_of(&out)
    }
}

/// A sequence of parameters to be written as text.
pub struct ParameterDisplay(pub Vec<Parameter>);

impl ParameterDisplay {
    /// Each parameter's text preceded by a space, and one space at the end.
    pub fn to_string(&self) -> (r: String)
        ensures
            r@ == render_seq(params_view(self.0@)),
    {
        let v = &self.0;
        let mut out: Vec<char> = Vec::new();
        let ghost start = out@;
        let mut k: usize = 0;
        assert(v@.subrange(0, 0) =~= Seq::<Parameter>::empty());
        assert(start + render_items(params_view(v@.subrange(0, 0))) =~= start);
        while k < v.len()
            invariant
                k <= v@.len(),
                out@ == start + render_items(params_view(v@.subrange(0, k as int))),
            decreases v@.len() - k,
        {
            proof {
                let pk = v@.subrange(0, k as int);
                assert(v@.subrange(0, k + 1).drop_last() =~= pk);
                let pv = params_view(pk);
                assert(pv.push(v[k as int]@).drop_last() =~= pv);
            }
            out.push(' ');
            push_param(&v[k], &mut out);
            k = k + 1;
            assert(out@ =~= start + render_items(params_view(v@.subrange(0, k as int))));
        }
        assert(v@.subrange(0, v@.len() as int) =~= v@);
        out.push(' ');
        assert(out@ =~= render_seq(params_view(v@)));
        string_of(&out)
    }
}

} // verus!
