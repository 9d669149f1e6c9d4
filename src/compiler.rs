//! The dispatch table: function nodes to style property values.

use vstd::prelude::*;

use crate::chars::chars_of;
use crate::errors::{Error, Unexpected};
use crate::number::{Number, Unit};
use crate::parser::{lemma_params_view, params_view, ParamV, Parameter};

verus! {

/// Length units of the output.
#[derive(Clone, Copy, Debug, PartialEq, Eq, Structural)]
pub enum LengthUnit {
    Px,
    Pc,
    Pt,
    In,
    Cm,
    Mm,
    Vh,
    Vw,
    Vmin,
    Vmax,
    Rem,
    Em,
}

/// A length, or a percentage that holds the number as written (`50` for `50%`).
#[derive(Clone, Copy, Debug, PartialEq, Eq, Structural)]
pub enum LengthPercentage {
    Dimension(LengthUnit, Number),
    Percentage(Number),
}

/// The painting areas of `background-clip`.
#[derive(Clone, Copy, Debug, PartialEq, Eq, Structural)]
pub enum ClipMode {
    BorderBox,
    PaddingBox,
    ContentBox,
    Text,
}

/// A set of vendor prefixes; `none` stands for the unprefixed property.
#[derive(Clone, Copy, Debug, PartialEq, Eq, Structural)]
pub struct Prefixes {
    pub none: bool,
    pub webkit: bool,
    pub moz: bool,
    pub ms: bool,
    pub o: bool,
}

impl Prefixes {
    pub open spec fn all_spec() -> Prefixes {
        Prefixes { none: true, webkit: true, moz: true, ms: true, o: true }
    }

    /// Every vendor variant, the unprefixed one included.
    pub fn all() -> (r: Prefixes)
        ensures
            r == Prefixes::all_spec(),
    {
        Prefixes { none: true, webkit: true, moz: true, ms: true, o: true }
    }
}

/// An output property value.
#[derive(Clone, Copy, Debug, PartialEq, Eq, Structural)]
pub enum Property {
    BackgroundClip { clip: ClipMode, prefixes: Prefixes },
    Height(LengthPercentage),
    Width(LengthPercentage),
}

/// The transformations of the dispatch table.
#[derive(Clone, Copy, Debug, PartialEq, Eq, Structural)]
pub enum Directive {
    BackgroundClip,
    Height,
    Width,
}

pub open spec fn length_unit(u: Unit) -> LengthUnit {
    match u {
        Unit::Px => LengthUnit::Px,
        Unit::Pc => LengthUnit::Pc,
        Unit::Pt => LengthUnit::Pt,
        Unit::In => LengthUnit::In,
        Unit::Cm => LengthUnit::Cm,
        Unit::Mm => LengthUnit::Mm,
        Unit::Vh => LengthUnit::Vh,
        Unit::Vw => LengthUnit::Vw,
        Unit::VMin => LengthUnit::Vmin,
        Unit::VMax => LengthUnit::Vmax,
        Unit::Rem => LengthUnit::Rem,
        _ => LengthUnit::Em,
    }
}

/// The length a parameter stands for: a percentage keeps its number, a number
/// without a unit counts in quarters of an `em`, degrees are no length, and
/// every other unit maps to the length unit of the same name.
pub open spec fn length_spec(p: ParamV) -> Option<LengthPercentage> {
    match p {
        ParamV::Unit(n, u) => match u {
            Unit::Percent => Some(LengthPercentage::Percentage(n)),
            Unit::Arbitrary => match n.quarter_spec() {
                Some(q) => Some(LengthPercentage::Dimension(LengthUnit::Em, q)),
                None => None,
            },
            Unit::Deg => None,
            _ => Some(LengthPercentage::Dimension(length_unit(u), n)),
        },
        _ => None,
    }
}

/// The function names of the dispatch table.
pub open spec fn directive_of(name: Seq<char>) -> Option<Directive> {
    if name =~= seq!['b', 'g', '-', 'c', 'l', 'i', 'p'] {
        Some(Directive::BackgroundClip)
    } else if name =~= seq!['h'] {
        Some(Directive::Height)
    } else if name =~= seq!['w'] {
        Some(Directive::Width)
    } else {
        None
    }
}

/// The identifiers that `bg-clip` accepts.
pub open spec fn clip_word(w: Seq<char>) -> Option<ClipMode> {
    if w =~= seq!['t', 'e', 'x', 't'] {
        Some(ClipMode::Text)
    } else if w =~= seq!['p', 'a', 'd', 'd', 'i', 'n', 'g'] {
        Some(ClipMode::PaddingBox)
    } else if w =~= seq!['c', 'o', 'n', 't', 'e', 'n', 't'] {
        Some(ClipMode::ContentBox)
    } else if w =~= seq!['b', 'o', 'r', 'd', 'e', 'r'] {
        Some(ClipMode::BorderBox)
    } else {
        None
    }
}

/// Why a known function rejected its parameter.
pub enum CompileFail {
    InvalidKeyword(Seq<char>),
    Malformed(ParamV),
}

pub open spec fn describes(e: Error, f: CompileFail) -> bool {
    match f {
        CompileFail::InvalidKeyword(w) => e matches Error::InvalidKeyword(s) && s@ == w,
        CompileFail::Malformed(p) => e matches Error::Unexpected(Unexpected::Parameter(q)) && q@
            == p,
    }
}

/// What the function `name` makes of `p`: `None` for a name outside the
/// table, else the property or the reason for rejecting `p`.
pub open spec fn translate_spec(name: Seq<char>, p: ParamV) -> Result<Option<Property>, CompileFail> {
    match directive_of(name) {
        None => Ok(None),
        Some(Directive::BackgroundClip) => match p {
            ParamV::Ident(w) => match clip_word(w) {
                Some(m) => Ok(Some(Property::BackgroundClip { clip: m, prefixes: Prefixes::all_spec() })),
                None => Err(CompileFail::InvalidKeyword(w)),
            },
            _ => Err(CompileFail::Malformed(p)),
        },
        Some(d) => match length_spec(p) {
            Some(l) => Ok(
                Some(
                    if d == Directive::Height {
                        Property::Height(l)
                    } else {
                        Property::Width(l)
                    },
                ),
            ),
            None => Err(CompileFail::Malformed(p)),
        },
    }
}

pub open spec fn is_function(p: ParamV) -> bool {
    p is Function || p is Procedural
}

/// The name and value of a function node.
pub open spec fn function_parts(p: ParamV) -> (Seq<char>, ParamV) {
    match p {
        ParamV::Function(name, v) => (name, *v),
        ParamV::Procedural(name, _, v) => (name, *v),
        _ => (seq![], p),
    }
}

/// The properties of function nodes from index `i` on, in order, skipping
/// names outside the table; or the first rejection.
pub open spec fn compile_from(ps: Seq<ParamV>, i: int) -> Result<Seq<Property>, CompileFail>
    decreases ps.len() - i,
{
    if i < 0 || i >= ps.len() {
        Ok(seq![])
    } else {
        let (name, v) = function_parts(ps[i]);
        match translate_spec(name, v) {
            Err(f) => Err(f),
            Ok(o) => match compile_from(ps, i + 1) {
                Err(f) => Err(f),
                Ok(rest) => match o {
                    Some(p) => Ok(seq![p] + rest),
                    None => Ok(rest),
                },
            },
        }
    }
}

impl Parameter {
    /// The length the parameter stands for (see [`length_spec`]), or the
    /// parameter itself where it stands for none.
    pub fn into_length(self) -> (r: Result<LengthPercentage, Parameter>)
        ensures
            match r {
                Ok(l) => length_spec(self@) == Some(l),
                Err(p) => length_spec(self@) is None && p@ == self@,
            },
    {
        match self {
            Parameter::Unit(n, u) => {
                let unit = match u {
                    Unit::Px => LengthUnit::Px,
                    Unit::Pc => LengthUnit::Pc,
                    Unit::Pt => LengthUnit::Pt,
                    Unit::In => LengthUnit::In,
                    Unit::Cm => LengthUnit::Cm,
                    Unit::Mm => LengthUnit::Mm,
                    Unit::Vh => LengthUnit::Vh,
                    Unit::Vw => LengthUnit::Vw,
                    Unit::VMin => LengthUnit::Vmin,
                    Unit::VMax => LengthUnit::Vmax,
                    Unit::Rem => LengthUnit::Rem,
                    Unit::Em => LengthUnit::Em,
                    Unit::Deg => {
                        return Err(self);
                    },
                    Unit::Percent => {
                        return Ok(LengthPercentage::Percentage(n));
                    },
                    Unit::Arbitrary => {
                        return match n.quarter() {
                            Some(q) => Ok(LengthPercentage::Dimension(LengthUnit::Em, q)),
                            None => Err(self),
                        };
                    },
                };
                Ok(LengthPercentage::Dimension(unit, n))
            },
            _ => Err(self),
        }
    }
}

/// The entry of the dispatch table for a function name.
pub fn directive_named(name: &str) -> (r: Option<Directive>)
    ensures
        r == directive_of(name@),
{
    let w = chars_of(name);
    if w.len() == 7 && w[0] == 'b' && w[1] == 'g' && w[2] == '-' && w[3] == 'c' && w[4] == 'l'
        && w[5] == 'i' && w[6] == 'p' {
        assert(w@ =~= seq!['b', 'g', '-', 'c', 'l', 'i', 'p']);
        Some(Directive::BackgroundClip)
    } else if w.len() == 1 && w[0] == 'h' {
        assert(w@ =~= seq!['h']);
        Some(Directive::Height)
    } else if w.len() == 1 && w[0] == 'w' {
        assert(w@ =~= seq!['w']);
        Some(Directive::Width)
    } else {
        None
    }
}

fn clip_mode_named(name: &str) -> (r: Option<ClipMode>)
    ensures
        r == clip_word(name@),
{
    let w = chars_of(name);
    if w.len() == 4 && w[0] == 't' && w[1] == 'e' && w[2] == 'x' && w[3] == 't' {
        assert(w@ =~= seq!['t', 'e', 'x', 't']);
        Some(ClipMode::Text)
    } else if w.len() == 7 && w[0] == 'p' && w[1] == 'a' && w[2] == 'd' && w[3] == 'd' && w[4]
        == 'i' && w[5] == 'n' && w[6] == 'g' {
        assert(w@ =~= seq!['p', 'a', 'd', 'd', 'i', 'n', 'g']);
        Some(ClipMode::PaddingBox)
    } else if w.len() == 7 && w[0] == 'c' && w[1] == 'o' && w[2] == 'n' && w[3] == 't' && w[4]
        == 'e' && w[5] == 'n' && w[6] == 't' {
        assert(w@ =~= seq!['c', 'o', 'n', 't', 'e', 'n', 't']);
        Some(ClipMode::ContentBox)
    } else if w.len() == 6 && w[0] == 'b' && w[1] == 'o' && w[2] == 'r' && w[3] == 'd' && w[4]
        == 'e' && w[5] == 'r' {
        assert(w@ =~= seq!['b', 'o', 'r', 'd', 'e', 'r']);
        Some(ClipMode::BorderBox)
    } else {
        None
    }
}

/// Applies the function `name` of the dispatch table to its value: `Ok(None)`
/// where the name is not in the table, the property where the value suits
/// the function, and an error where it does not.
pub fn translate_function(function: (String, Box<Parameter>)) -> (r: Result<Option<Property>, Error>)
    ensures
        match r {
            Ok(o) => translate_spec(function.0@, (*function.1)@) == Ok::<_, CompileFail>(o),
            Err(e) => translate_spec(function.0@, (*function.1)@) matches Err(f) && describes(e, f),
        },
{
    let (name, parameter) = function;
    let parameter = *parameter;
    match directive_named(name.as_str()) {
        None => Ok(None),
        Some(Directive::BackgroundClip) => match parameter {
            Parameter::Ident(id) => match clip_mode_named(id.as_str()) {
                Some(clip) => Ok(Some(Property::BackgroundClip { clip, prefixes: Prefixes::all() })),
                None => Err(Error::InvalidKeyword(id)),
            },
            other => Err(Error::Unexpected(Unexpected::Parameter(other))),
        },
        Some(d) => match parameter.into_length() {
            Ok(l) => Ok(
                Some(
                    match d {
                        Directive::Height => Property::Height(l),
                        _ => Property::Width(l),
                    },
                ),
            ),
            Err(p) => Err(Error::Unexpected(Unexpected::Parameter(p))),
        },
    }
}

pub open spec fn prepend_props(p: Seq<Property>, r: Result<Seq<Property>, CompileFail>) -> Result<
    Seq<Property>,
    CompileFail,
> {
    match r {
        Ok(t) => Ok(p + t),
        Err(f) => Err(f),
    }
}

/// Compiles top-level function nodes into properties, in order. Names outside
/// the dispatch table are skipped; the first rejected value ends the
/// compilation with its error.
pub fn compile(inputs: Vec<Parameter>) -> (r: Result<Vec<Property>, Error>)
    requires
        forall|k: int| 0 <= k < inputs@.len() ==> is_function(#[trigger] inputs@[k]@),
    ensures
        match r {
            Ok(v) => compile_from(params_view(inputs@), 0) == Ok::<_, CompileFail>(v@),
            Err(e) => compile_from(params_view(inputs@), 0) matches Err(f) && describes(e, f),
        },
{
    let ghost pv = params_view(inputs@);
    proof {
        lemma_params_view(inputs@);
        if let Ok(t) = compile_from(pv, 0) {
            assert(Seq::<Property>::empty() + t =~= t);
        }
    }
    let mut out: Vec<Property> = Vec::new();
    let mut i: usize = 0;
    while i < inputs.len()
        invariant
            i <= inputs@.len(),
            pv == params_view(inputs@),
            pv.len() == inputs@.len(),
            forall|k: int| 0 <= k < inputs@.len() ==> #[trigger] pv[k] == inputs@[k]@,
            forall|k: int| 0 <= k < inputs@.len() ==> is_function(#[trigger] inputs@[k]@),
            compile_from(pv, 0) == prepend_props(out@, compile_from(pv, i as int)),
        decreases inputs@.len() - i,
    {
        let function = match &inputs[i] {
            Parameter::Function { name, parameter } => (name.clone(), Box::new(parameter.duplicate())),
            Parameter::ProceduralFunction { name, parameter, .. } => (
                name.clone(),
                Box::new(parameter.duplicate()),
            ),
            _ => {
                proof {
                    assert(is_function(inputs@[i as int]@));
                }
                return Ok(out);
            },
        };
        assert(function_parts(pv[i as int]) == (function.0@, (*function.1)@));
        match translate_function(function) {
            Err(e) => {
                return Err(e);
            },
            Ok(o) => {
                match o {
                    Some(p) => {
                        proof {
                            if let Ok(t) = compile_from(pv, i + 1) {
                                assert(out@ + (seq![p] + t) =~= out@.push(p) + t);
                            }
                        }
                        out.push(p);
                    },
                    None => {},
                }
                i = i + 1;
            },
        }
    }
    proof {
        assert(out@ + Seq::<Property>::empty() =~= out@);
    }
    Ok(out)
}

} // verus!
