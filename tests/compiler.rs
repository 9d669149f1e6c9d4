use screw_css::compiler::{
    compile, translate_function, ClipMode, LengthPercentage, LengthUnit, Prefixes, Property,
};
use screw_css::errors::{Error, Unexpected};
use screw_css::number::{Number, Unit};
use screw_css::parser::{parser, Parameter};
use screw_css::tokenizer::lex;

fn compile_text(s: &str) -> Result<Vec<Property>, Error> {
    compile(parser(&lex(s.to_string()).unwrap()).unwrap())
}

fn unit(v: i64, u: Unit) -> Parameter {
    Parameter::Unit(Number::from_int(v), u)
}

#[test]
fn background_clip_text() {
    assert_eq!(
        compile_text("bg-clip:text"),
        Ok(vec![Property::BackgroundClip { clip: ClipMode::Text, prefixes: Prefixes::all() }])
    );
    let all = Prefixes::all();
    assert!(all.none && all.webkit && all.moz && all.ms && all.o);
}

#[test]
fn background_clip_vocabulary() {
    assert_eq!(
        compile_text("bg-clip:padding bg-clip:content bg-clip:border"),
        Ok(vec![
            Property::BackgroundClip { clip: ClipMode::PaddingBox, prefixes: Prefixes::all() },
            Property::BackgroundClip { clip: ClipMode::ContentBox, prefixes: Prefixes::all() },
            Property::BackgroundClip { clip: ClipMode::BorderBox, prefixes: Prefixes::all() },
        ])
    );
}

#[test]
fn background_clip_invalid_keyword() {
    assert_eq!(compile_text("bg-clip:banana"), Err(Error::InvalidKeyword("banana".to_string())));
    assert_eq!(
        compile_text("bg-clip:10px"),
        Err(Error::Unexpected(Unexpected::Parameter(unit(10, Unit::Px))))
    );
}

#[test]
fn unknown_function_is_dropped() {
    assert_eq!(compile_text("unknown-fn:10px"), Ok(vec![]));
    assert_eq!(
        translate_function(("unknown-fn".to_string(), Box::new(unit(10, Unit::Px)))),
        Ok(None)
    );
    assert_eq!(
        compile_text("unknown-fn:10px h:2px"),
        Ok(vec![Property::Height(LengthPercentage::Dimension(LengthUnit::Px, Number::from_int(2)))])
    );
}

#[test]
fn height_and_width() {
    assert_eq!(
        compile_text("h:10px w:50%"),
        Ok(vec![
            Property::Height(LengthPercentage::Dimension(LengthUnit::Px, Number::from_int(10))),
            Property::Width(LengthPercentage::Percentage(Number::from_int(50))),
        ])
    );
    assert_eq!(
        compile_text("w:8"),
        Ok(vec![Property::Width(LengthPercentage::Dimension(LengthUnit::Em, Number::from_int(2)))])
    );
    assert_eq!(
        compile_text("f(x):3vmax"),
        Ok(vec![])
    );
}

#[test]
fn malformed_length() {
    assert_eq!(
        compile_text("h:foo"),
        Err(Error::Unexpected(Unexpected::Parameter(Parameter::Ident("foo".to_string()))))
    );
    assert_eq!(
        compile_text("w:3deg"),
        Err(Error::Unexpected(Unexpected::Parameter(unit(3, Unit::Deg))))
    );
}

#[test]
fn unit_conversion() {
    assert_eq!(
        unit(50, Unit::Percent).into_length(),
        Ok(LengthPercentage::Percentage(Number::from_int(50)))
    );
    assert_eq!(unit(3, Unit::Deg).into_length(), Err(unit(3, Unit::Deg)));
    assert_eq!(
        unit(4, Unit::Arbitrary).into_length(),
        Ok(LengthPercentage::Dimension(LengthUnit::Em, Number::from_int(1)))
    );
    assert_eq!(
        unit(1, Unit::Arbitrary).into_length(),
        Ok(LengthPercentage::Dimension(
            LengthUnit::Em,
            Number { negative: false, mantissa: 25, exponent: -2 }
        ))
    );
    assert_eq!(
        unit(-2, Unit::VMin).into_length(),
        Ok(LengthPercentage::Dimension(LengthUnit::Vmin, Number::from_int(-2)))
    );
    assert_eq!(
        Parameter::Ident("x".to_string()).into_length(),
        Err(Parameter::Ident("x".to_string()))
    );
}

#[test]
fn quarter_of_numbers() {
    assert_eq!(Number::from_int(10).quarter(), Some(Number { negative: false, mantissa: 25, exponent: -1 }));
    assert_eq!(Number::from_int(-4).quarter(), Some(Number::from_int(-1)));
    assert_eq!(Number::from_int(0).quarter(), Some(Number::from_int(0)));
}

#[test]
fn quarter_of_largest_lexed_mantissa() {
    assert_eq!(
        compile_text("h:18446744073709551615"),
        Ok(vec![Property::Height(LengthPercentage::Dimension(
            LengthUnit::Em,
            Number { negative: false, mantissa: 461168601842738790375, exponent: -2 }
        ))])
    );
    assert_eq!(
        compile_text("w:-0.000000001"),
        Ok(vec![Property::Width(LengthPercentage::Dimension(
            LengthUnit::Em,
            Number { negative: true, mantissa: 25, exponent: -11 }
        ))])
    );
}
