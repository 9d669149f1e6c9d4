//! The parser: tokens to parameters, by recursive descent.

use vstd::prelude::*;

use crate::errors::{Error, Unexpected};
use crate::number::{Number, Unit};
use crate::tokenizer::{tokens_view, Keyword, Token, TokenV};

verus! {

/// A node of the syntax tree.
#[derive(Debug, PartialEq)]
pub enum Parameter {
    /// A signed number and its unit.
    Unit(Number, Unit),
    /// A bare identifier.
    Ident(String),
    /// A quoted literal.
    String(String),
    Keyword(Keyword),
    /// `name:value`.
    Function { name: String, parameter: Box<Parameter> },
    /// `name(a b ...):value`: a function with a parenthesised argument list.
    ProceduralFunction {
        name: String,
        procedural_parameters: Vec<Parameter>,
        parameter: Box<Parameter>,
    },
    /// A parenthesised sequence.
    Group(Vec<Parameter>),
    /// `@"text"`: text for the output as it stands.
    InjectedCSS(String),
}

/// The mathematical model of a [`Parameter`].
pub enum ParamV {
    Unit(Number, Unit),
    Ident(Seq<char>),
    Str(Seq<char>),
    Keyword(Keyword),
    Function(Seq<char>, Box<ParamV>),
    Procedural(Seq<char>, Seq<ParamV>, Box<ParamV>),
    Group(Seq<ParamV>),
    Injected(Seq<char>),
}

impl View for Parameter {
    type V = ParamV;

    open spec fn view(&self) -> ParamV
        decreases self,
    {
        match self {
            Parameter::Unit(n, u) => ParamV::Unit(*n, *u),
            Parameter::Ident(s) => ParamV::Ident(s@),
            Parameter::String(s) => ParamV::Str(s@),
            Parameter::Keyword(k) => ParamV::Keyword(*k),
            Parameter::Function { name, parameter } => ParamV::Function(
                name@,
                Box::new((**parameter)@),
            ),
            Parameter::ProceduralFunction { name, procedural_parameters, parameter } =>
                ParamV::Procedural(
                name@,
                params_view(procedural_parameters@),
                Box::new((**parameter)@),
            ),
            Parameter::Group(items) => ParamV::Group(params_view(items@)),
            Parameter::InjectedCSS(s) => ParamV::Injected(s@),
        }
    }
}

pub open spec fn params_view(s: Seq<Parameter>) -> Seq<ParamV>
    decreases s,
{
    if s.len() == 0 {
        seq![]
    } else {
        params_view(s.drop_last()).push(s.last()@)
    }
}

pub proof fn lemma_params_view(s: Seq<Parameter>)
    ensures
        params_view(s).len() == s.len(),
        forall|k: int| 0 <= k < s.len() ==> #[trigger] params_view(s)[k] == s[k]@,
    decreases s.len(),
{
    if s.len() == 0 {
        assert(params_view(s) == Seq::<ParamV>::empty());
    }
    if s.len() > 0 {
        assert(params_view(s) == params_view(s.drop_last()).push(s.last()@));
        lemma_params_view(s.drop_last());
        assert forall|k: int| 0 <= k < s.len() implies #[trigger] params_view(s)[k] == s[k]@ by {
            if k < s.len() - 1 {
                assert(s.drop_last()[k] == s[k]);
            }
        }
    }
}

pub proof fn lemma_tokens_view(s: Seq<Token>)
    ensures
        tokens_view(s).len() == s.len(),
        forall|k: int| 0 <= k < s.len() ==> #[trigger] tokens_view(s)[k] == s[k]@,
    decreases s.len(),
{
    if s.len() == 0 {
        assert(tokens_view(s) == Seq::<TokenV>::empty());
    }
    if s.len() > 0 {
        assert(tokens_view(s) == tokens_view(s.drop_last()).push(s.last()@));
        lemma_tokens_view(s.drop_last());
        assert forall|k: int| 0 <= k < s.len() implies #[trigger] tokens_view(s)[k] == s[k]@ by {
            if k < s.len() - 1 {
                assert(s.drop_last()[k] == s[k]);
            }
        }
    }
}

/// Negation: numbers change sign, groups negate each of their items, and
/// every other node is left as it is.
pub open spec fn negated(p: ParamV) -> ParamV
    decreases p,
{
    match p {
        ParamV::Unit(n, u) => ParamV::Unit(n.neg_spec(), u),
        ParamV::Group(items) => ParamV::Group(negated_all(items)),
        _ => p,
    }
}

pub open spec fn negated_all(s: Seq<ParamV>) -> Seq<ParamV>
    decreases s,
{
    if s.len() == 0 {
        seq![]
    } else {
        negated_all(s.drop_last()).push(negated(s.last()))
    }
}

/// `p`, negated when `flag` is set.
pub open spec fn negate_if(p: ParamV, flag: bool) -> ParamV {
    if flag {
        negated(p)
    } else {
        p
    }
}

/// Negation distributes over groups: negating a group negates each of its
/// items, in order, nested groups included.
pub proof fn lemma_negation_distributes(items: Seq<ParamV>)
    ensures
        negated(ParamV::Group(items)) == ParamV::Group(negated_all(items)),
        negated_all(items).len() == items.len(),
        forall|k: int| 0 <= k < items.len() ==> #[trigger] negated_all(items)[k] == negated(items[k]),
    decreases items.len(),
{
    if items.len() == 0 {
        assert(negated_all(items) == Seq::<ParamV>::empty());
    } else {
        assert(negated_all(items) == negated_all(items.drop_last()).push(negated(items.last())));
        lemma_negation_distributes(items.drop_last());
        assert forall|k: int| 0 <= k < items.len() implies #[trigger] negated_all(items)[k]
            == negated(items[k]) by {
            if k < items.len() - 1 {
                assert(items.drop_last()[k] == items[k]);
            }
        }
    }
}

/// Negation changes the sign of a number, keeps its unit, and leaves
/// identifiers, strings, keywords, functions and injected text as they are.
pub proof fn lemma_negation_of_leaves(p: ParamV)
    ensures
        p is Unit ==> negated(p) == ParamV::Unit(p->Unit_0.neg_spec(), p->Unit_1),
        !(p is Unit) && !(p is Group) ==> negated(p) == p,
{
}

/// Where parsing stopped: at a token, or (`None`) at the end of the input.
pub type ParseFail = Option<TokenV>;

pub open spec fn fail_at(ts: Seq<TokenV>, i: int) -> ParseFail {
    if 0 <= i < ts.len() {
        Some(ts[i])
    } else {
        None
    }
}

/// One value of the grammar at index `i`, and the index after it. The
/// alternatives, in order: a procedural function `name(group):value`, a
/// function `[-]name:value`, a measurement `[-]number [unit]`, a keyword, a
/// bare identifier, an injected literal `@"text"`, a string, a group, and a
/// value after `-`, which is negated.
pub open spec fn value_at(ts: Seq<TokenV>, i: int) -> Result<(ParamV, int), ParseFail>
    decreases ts, ts.len() - i, 0nat,
{
    if i < 0 || i >= ts.len() {
        Err(None)
    } else {
        let t = ts[i];
        let n1 = fail_at(ts, i + 1);
        let n2 = fail_at(ts, i + 2);
        if t is Ident && n1 is Some && n1->0 is Group && n2 == Some(TokenV::Colon) {
            match parse_from(n1->0->Group_0, 0) {
                Err(e) => Err(e),
                Ok(ps) => match value_at(ts, i + 3) {
                    Ok((v, j)) => Ok((ParamV::Procedural(t->Ident_0, ps, Box::new(v)), j)),
                    Err(e) => Err(e),
                },
            }
        } else if t is Ident && n1 == Some(TokenV::Colon) {
            match value_at(ts, i + 2) {
                Ok((v, j)) => Ok((ParamV::Function(t->Ident_0, Box::new(v)), j)),
                Err(e) => Err(e),
            }
        } else if t is Negator && n1 is Some && n1->0 is Ident && n2 == Some(TokenV::Colon) {
            match value_at(ts, i + 3) {
                Ok((v, j)) => Ok((ParamV::Function(n1->0->Ident_0, Box::new(negated(v))), j)),
                Err(e) => Err(e),
            }
        } else if t is Number {
            match n1 {
                Some(TokenV::Unit(u)) => Ok((ParamV::Unit(t->Number_0, u), i + 2)),
                _ => Ok((ParamV::Unit(t->Number_0, Unit::Arbitrary), i + 1)),
            }
        } else if t is Negator && n1 is Some && n1->0 is Number {
            match n2 {
                Some(TokenV::Unit(u)) => Ok((ParamV::Unit(n1->0->Number_0.neg_spec(), u), i + 3)),
                _ => Ok((ParamV::Unit(n1->0->Number_0.neg_spec(), Unit::Arbitrary), i + 2)),
            }
        } else if t is Keyword {
            Ok((ParamV::Keyword(t->Keyword_0), i + 1))
        } else if t is Ident {
            Ok((ParamV::Ident(t->Ident_0), i + 1))
        } else if t is At {
            match n1 {
                Some(TokenV::Str(s)) => Ok((ParamV::Injected(s), i + 2)),
                _ => Err(n1),
            }
        } else if t is Str {
            Ok((ParamV::Str(t->Str_0), i + 1))
        } else if t is Group {
            match parse_from(t->Group_0, 0) {
                Ok(ps) => Ok((ParamV::Group(ps), i + 1)),
                Err(e) => Err(e),
            }
        } else if t is Negator {
            match value_at(ts, i + 1) {
                Ok((v, j)) => Ok((negated(v), j)),
                Err(e) => Err(e),
            }
        } else {
            Err(Some(t))
        }
    }
}

pub open spec fn prepend_params(p: Seq<ParamV>, r: Result<Seq<ParamV>, ParseFail>) -> Result<
    Seq<ParamV>,
    ParseFail,
> {
    match r {
        Ok(t) => Ok(p + t),
        Err(e) => Err(e),
    }
}

/// Values repeated from index `i` to the end of the tokens.
pub open spec fn parse_from(ts: Seq<TokenV>, i: int) -> Result<Seq<ParamV>, ParseFail>
    decreases ts, ts.len() - i, 1nat,
{
    if i < 0 || i >= ts.len() {
        Ok(seq![])
    } else {
        match value_at(ts, i) {
            Err(e) => Err(e),
            Ok((p, j)) => if i < j <= ts.len() {
                prepend_params(seq![p], parse_from(ts, j))
            } else {
                Err(None)
            },
        }
    }
}

/// The parameters of a whole token sequence.
pub open spec fn parse_spec(ts: Seq<TokenV>) -> Result<Seq<ParamV>, ParseFail> {
    parse_from(ts, 0)
}

/// `e` is the error that reports a parse that stopped at `f`.
pub open spec fn reports(e: Error, f: ParseFail) -> bool {
    match f {
        None => e == Error::UnexpectedEOF,
        Some(t) => e matches Error::Unexpected(Unexpected::Token(x)) && x@ == t,
    }
}

pub open spec fn parsed(r: Result<Vec<Parameter>, Error>, ts: Seq<TokenV>) -> bool {
    match r {
        Ok(ps) => parse_spec(ts) == Ok::<_, ParseFail>(params_view(ps@)),
        Err(e) => parse_spec(ts) matches Err(f) && reports(e, f),
    }
}

proof fn lemma_prepend_params(a: Seq<ParamV>, b: Seq<ParamV>, r: Result<Seq<ParamV>, ParseFail>)
    ensures
        prepend_params(a, prepend_params(b, r)) == prepend_params(a + b, r),
        prepend_params(seq![], r) == r,
{
    if let Ok(t) = r {
        assert(a + (b + t) =~= (a + b) + t);
        assert(seq![] + t =~= t);
    }
}

impl Token {
    /// A copy of the token, nested tokens included.
    pub fn duplicate(&self) -> (r: Token)
        ensures
            r@ == self@,
        decreases self,
    {
        match self {
            Token::Negator => Token::Negator,
            Token::Colon => Token::Colon,
            Token::At => Token::At,
            Token::String(s) => Token::String(s.clone()),
            Token::Ident(s) => Token::Ident(s.clone()),
            Token::Number(n) => Token::Number(*n),
            Token::Group(v) => {
                let mut out: Vec<Token> = Vec::new();
                let mut k: usize = 0;
                while k < v.len()
                    invariant
                        k <= v@.len(),
                        self is Group && self->Group_0 == *v,
                        tokens_view(out@) == tokens_view(v@.subrange(0, k as int)),
                    decreases v@.len() - k,
                {
                    let x = v[k].duplicate();
                    proof {
                        assert(out@.push(x).drop_last() =~= out@);
                        assert(v@.subrange(0, k + 1).drop_last() =~= v@.subrange(0, k as int));
                    }
                    out.push(x);
                    k = k + 1;
                }
                assert(v@.subrange(0, v@.len() as int) =~= v@);
                Token::Group(out)
            },
            Token::Block(v) => {
                let mut out: Vec<Token> = Vec::new();
                let mut k: usize = 0;
                while k < v.len()
                    invariant
                        k <= v@.len(),
                        self is Block && self->Block_0 == *v,
                        tokens_view(out@) == tokens_view(v@.subrange(0, k as int)),
                    decreases v@.len() - k,
                {
                    let x = v[k].duplicate();
                    proof {
                        assert(out@.push(x).drop_last() =~= out@);
                        assert(v@.subrange(0, k + 1).drop_last() =~= v@.subrange(0, k as int));
                    }
                    out.push(x);
                    k = k + 1;
                }
                assert(v@.subrange(0, v@.len() as int) =~= v@);
                Token::Block(out)
            },
            Token::Keyword(k) => Token::Keyword(*k),
            Token::Unit(u) => Token::Unit(*u),
        }
    }
}

impl Parameter {
    pub fn unwrap_unit(self) -> (r: (Number, Unit))
        requires
            self is Unit,
        ensures
            self@ == ParamV::Unit(r.0, r.1),
    {
        match self {
            Parameter::Unit(n, u) => (n, u),
            _ => unreached(),
        }
    }

    pub fn unwrap_ident(self) -> (r: String)
        requires
            self is Ident,
        ensures
            self@ == ParamV::Ident(r@),
    {
        match self {
            Parameter::Ident(id) => id,
            _ => unreached(),
        }
    }

    pub fn unwrap_string(self) -> (r: String)
        requires
            self is String,
        ensures
            self@ == ParamV::Str(r@),
    {
        match self {
            Parameter::String(s) => s,
            _ => unreached(),
        }
    }

    pub fn unwrap_keyword(self) -> (r: Keyword)
        requires
            self is Keyword,
        ensures
            self@ == ParamV::Keyword(r),
    {
        match self {
            Parameter::Keyword(k) => k,
            _ => unreached(),
        }
    }

    pub fn unwrap_function(self) -> (r: (String, Box<Parameter>))
        requires
            self is Function,
        ensures
            self@ == ParamV::Function(r.0@, Box::new((*r.1)@)),
    {
        match self {
            Parameter::Function { name, parameter } => (name, parameter),
            _ => unreached(),
        }
    }

    pub fn unwrap_procedural(self) -> (r: (String, Vec<Parameter>, Box<Parameter>))
        requires
            self is ProceduralFunction,
        ensures
            self@ == ParamV::Procedural(r.0@, params_view(r.1@), Box::new((*r.2)@)),
    {
        match self {
            Parameter::ProceduralFunction { name, procedural_parameters, parameter } => (
                name,
                procedural_parameters,
                parameter,
            ),
            _ => unreached(),
        }
    }

    pub fn unwrap_group(self) -> (r: Vec<Parameter>)
        requires
            self is Group,
        ensures
            self@ == ParamV::Group(params_view(r@)),
    {
        match self {
            Parameter::Group(items) => items,
            _ => unreached(),
        }
    }
}

impl Parameter {
    /// A copy of the parameter, nested parameters included.
    pub fn duplicate(&self) -> (r: Parameter)
        ensures
            r@ == self@,
        decreases self,
    {
        match self {
            Parameter::Unit(n, u) => Parameter::Unit(*n, *u),
            Parameter::Ident(s) => Parameter::Ident(s.clone()),
            Parameter::String(s) => Parameter::String(s.clone()),
            Parameter::Keyword(k) => Parameter::Keyword(*k),
            Parameter::Function { name, parameter } => Parameter::Function {
                name: name.clone(),
                parameter: Box::new(parameter.duplicate()),
            },
            Parameter::ProceduralFunction { name, procedural_parameters, parameter } => {
                let v = procedural_parameters;
                let mut out: Vec<Parameter> = Vec::new();
                let mut k: usize = 0;
                while k < v.len()
                    invariant
                        k <= v@.len(),
                        self is ProceduralFunction && self->procedural_parameters == *v,
                        params_view(out@) == params_view(v@.subrange(0, k as int)),
                    decreases v@.len() - k,
                {
                    let x = v[k].duplicate();
                    proof {
                        assert(out@.push(x).drop_last() =~= out@);
                        assert(v@.subrange(0, k + 1).drop_last() =~= v@.subrange(0, k as int));
                    }
                    out.push(x);
                    k = k + 1;
                }
                assert(v@.subrange(0, v@.len() as int) =~= v@);
                Parameter::ProceduralFunction {
                    name: name.clone(),
                    procedural_parameters: out,
                    parameter: Box::new(parameter.duplicate()),
                }
            },
            Parameter::Group(v) => {
                let mut out: Vec<Parameter> = Vec::new();
                let mut k: usize = 0;
                while k < v.len()
                    invariant
                        k <= v@.len(),
                        self is Group && self->Group_0 == *v,
                        params_view(out@) == params_view(v@.subrange(0, k as int)),
                    decreases v@.len() - k,
                {
                    let x = v[k].duplicate();
                    proof {
                        assert(out@.push(x).drop_last() =~= out@);
                        assert(v@.subrange(0, k + 1).drop_last() =~= v@.subrange(0, k as int));
                    }
                    out.push(x);
                    k = k + 1;
                }
                assert(v@.subrange(0, v@.len() as int) =~= v@);
                Parameter::Group(out)
            },
            Parameter::InjectedCSS(s) => Parameter::InjectedCSS(s.clone()),
        }
    }

    /// The negation of the parameter (see [`negated`]), as a new value.
    fn negated_copy(&self) -> (r: Parameter)
        ensures
            r@ == negated(self@),
        decreases self,
    {
        match self {
            Parameter::Unit(n, u) => Parameter::Unit(n.neg(), *u),
            Parameter::Group(v) => {
                let mut out: Vec<Parameter> = Vec::new();
                let mut k: usize = 0;
                while k < v.len()
                    invariant
                        k <= v@.len(),
                        self is Group && self->Group_0 == *v,
                        params_view(out@) == negated_all(params_view(v@.subrange(0, k as int))),
                    decreases v@.len() - k,
                {
                    let x = v[k].negated_copy();
                    proof {
                        assert(out@.push(x).drop_last() =~= out@);
                        assert(v@.subrange(0, k + 1).drop_last() =~= v@.subrange(0, k as int));
                        let pv = params_view(v@.subrange(0, k as int));
                        assert(pv.push(v[k as int]@).drop_last() =~= pv);
                    }
                    out.push(x);
                    k = k + 1;
                }
                assert(v@.subrange(0, v@.len() as int) =~= v@);
                Parameter::Group(out)
            },
            _ => self.duplicate(),
        }
    }

    /// Negates the parameter when `negate` is set: numbers change sign,
    /// groups negate every item, and every other parameter is unchanged.
    pub fn negate(self, negate: bool) -> (r: Parameter)
        ensures
            r@ == negate_if(self@, negate),
    {
        if !negate {
            return self;
        }
        match self {
            Parameter::Unit(n, u) => Parameter::Unit(n.neg(), u),
            Parameter::Group(_) => self.negated_copy(),
            other => other,
        }
    }
}

/// The error that reports a parse stopped at index `i` of `ts`.
fn failure_at(ts: &Vec<Token>, i: usize) -> (e: Error)
    ensures
        reports(e, fail_at(tokens_view(ts@), i as int)),
{
    proof {
        lemma_tokens_view(ts@);
    }
    if i < ts.len() {
        Error::Unexpected(Unexpected::Token(ts[i].duplicate()))
    } else {
        Error::UnexpectedEOF
    }
}

/// Parses one value at index `i`; see [`value_at`].
fn parse_value(ts: &Vec<Token>, i: usize) -> (r: Result<(Parameter, usize), Error>)
    ensures
        match r {
            Ok((p, j)) => value_at(tokens_view(ts@), i as int) == Ok::<_, ParseFail>(
                (p@, j as int),
            ) && i < j <= ts@.len(),
            Err(e) => value_at(tokens_view(ts@), i as int) matches Err(f) && reports(e, f),
        },
    decreases ts, ts@.len() - i, 0nat,
{
    proof {
        lemma_tokens_view(ts@);
    }
    let n = ts.len();
    if i >= n {
        return Err(Error::UnexpectedEOF);
    }
    match &ts[i] {
        Token::Ident(name) => {
            if n - i > 2 && matches!(ts[i + 2], Token::Colon) {
                if let Token::Group(g) = &ts[i + 1] {
                    return match parser(g) {
                        Err(e) => Err(e),
                        Ok(ps) => match parse_value(ts, i + 3) {
                            Ok((v, j)) => Ok(
                                (
                                    Parameter::ProceduralFunction {
                                        name: name.clone(),
                                        procedural_parameters: ps,
                                        parameter: Box::new(v),
                                    },
                                    j,
                                ),
                            ),
                            Err(e) => Err(e),
                        },
                    };
                }
            }
            if n - i > 1 && matches!(ts[i + 1], Token::Colon) {
                return match parse_value(ts, i + 2) {
                    Ok((v, j)) => Ok(
                        (Parameter::Function { name: name.clone(), parameter: Box::new(v) }, j),
                    ),
                    Err(e) => Err(e),
                };
            }
            Ok((Parameter::Ident(name.clone()), i + 1))
        },
        Token::Negator => {
            if n - i > 2 && matches!(ts[i + 2], Token::Colon) {
                if let Token::Ident(name) = &ts[i + 1] {
                    return match parse_value(ts, i + 3) {
                        Ok((v, j)) => Ok(
                            (
                                Parameter::Function {
                                    name: name.clone(),
                                    parameter: Box::new(v.negate(true)),
                                },
                                j,
                            ),
                        ),
                        Err(e) => Err(e),
                    };
                }
            }
            if n - i > 1 {
                if let Token::Number(num) = &ts[i + 1] {
                    if n - i > 2 {
                        if let Token::Unit(u) = &ts[i + 2] {
                            return Ok((Parameter::Unit(num.neg(), *u), i + 3));
                        }
                    }
                    return Ok((Parameter::Unit(num.neg(), Unit::Arbitrary), i + 2));
                }
            }
            match parse_value(ts, i + 1) {
                Ok((v, j)) => Ok((v.negate(true), j)),
                Err(e) => Err(e),
            }
        },
        Token::Number(num) => {
            if n - i > 1 {
                if let Token::Unit(u) = &ts[i + 1] {
                    return Ok((Parameter::Unit(*num, *u), i + 2));
                }
            }
            Ok((Parameter::Unit(*num, Unit::Arbitrary), i + 1))
        },
        Token::Keyword(k) => Ok((Parameter::Keyword(*k), i + 1)),
        Token::At => {
            if n - i > 1 {
                if let Token::String(s) = &ts[i + 1] {
                    return Ok((Parameter::InjectedCSS(s.clone()), i + 2));
                }
            }
            Err(failure_at(ts, i + 1))
        },
        Token::String(s) => Ok((Parameter::String(s.clone()), i + 1)),
        Token::Group(g) => match parser(g) {
            Ok(ps) => Ok((Parameter::Group(ps), i + 1)),
            Err(e) => Err(e),
        },
        _ => Err(failure_at(ts, i)),
    }
}

/// Parses a whole token sequence into parameters: values, one after the
/// other, until the tokens run out. Fails on the first token at which no
/// value can start or continue, or at the end where a value is incomplete.
pub fn parser(tokens: &Vec<Token>) -> (r: Result<Vec<Parameter>, Error>)
    ensures
        parsed(r, tokens_view(tokens@)),
    decreases tokens, tokens@.len() + 1, 0nat,
{
    let ghost tv = tokens_view(tokens@);
    let mut out: Vec<Parameter> = Vec::new();
    let mut i: usize = 0;
    proof {
        lemma_tokens_view(tokens@);
        lemma_prepend_params(seq![], seq![], parse_from(tv, 0));
        assert(params_view(out@) =~= seq![]);
    }
    while i < tokens.len()
        invariant
            i <= tokens@.len(),
            tv == tokens_view(tokens@),
            tv.len() == tokens@.len(),
            parse_from(tv, 0) == prepend_params(params_view(out@), parse_from(tv, i as int)),
        decreases tokens@.len() - i,
    {
        match parse_value(tokens, i) {
            Err(e) => {
                return Err(e);
            },
            Ok((p, j)) => {
                proof {
                    lemma_prepend_params(params_view(out@), seq![p@], parse_from(tv, j as int));
                    assert(out@.push(p).drop_last() =~= out@);
                    assert(params_view(out@) + seq![p@] =~= params_view(out@).push(p@));
                }
                out.push(p);
                i = j;
            },
        }
    }
    proof {
        assert(params_view(out@) + seq![] =~= params_view(out@));
    }
    Ok(out)
}

/// A minus sign before a value negates that value: before a group it
/// negates every item, before an identifier or a string it changes nothing.
/// The two forms that take the sign themselves, a number and a function
/// `-name:value`, are left out here: there the sign goes to the number, or to
/// the function's value.
pub proof fn lemma_leading_minus(ts: Seq<TokenV>)
    requires
        ts.len() >= 2,
        ts[0] is Negator,
        !(ts[1] is Number),
        !(ts[1] is Ident && fail_at(ts, 2) == Some(TokenV::Colon)),
    ensures
        value_at(ts, 0) == match value_at(ts, 1) {
            Ok((v, j)) => Ok((negated(v), j)),
            Err(e) => Err(e),
        },
{
}

/// A minus sign before a number gives the number with its sign changed,
/// with the unit that follows it, if any.
pub proof fn lemma_minus_number(ts: Seq<TokenV>)
    requires
        ts.len() >= 2,
        ts[0] is Negator,
        ts[1] is Number,
    ensures
        value_at(ts, 0) == match fail_at(ts, 2) {
            Some(TokenV::Unit(u)) => Ok::<_, ParseFail>(
                (ParamV::Unit(ts[1]->Number_0.neg_spec(), u), 3int),
            ),
            _ => Ok((ParamV::Unit(ts[1]->Number_0.neg_spec(), Unit::Arbitrary), 2)),
        },
{
}

impl Clone for Token {
    fn clone(&self) -> (r: Token)
        ensures
            r@ == self@,
    {
        self.duplicate()
    }
}

impl Clone for Parameter {
    fn clone(&self) -> (r: Parameter)
        ensures
            r@ == self@,
    {
        self.duplicate()
    }
}

} // verus!
