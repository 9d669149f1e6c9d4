use screw_css::errors::{Error, Unexpected};
use screw_css::number::{Number, Unit};
use screw_css::parser::{parser, Parameter};
use screw_css::tokenizer::{lex, Token};

fn parse(s: &str) -> Result<Vec<Parameter>, Error> {
    parser(&lex(s.to_string()).unwrap())
}

fn unit(v: i64, u: Unit) -> Parameter {
    Parameter::Unit(Number::from_int(v), u)
}

fn ident(s: &str) -> Parameter {
    Parameter::Ident(s.to_string())
}

#[test]
fn negation_of_measurement() {
    assert_eq!(parse("-10px"), Ok(vec![unit(-10, Unit::Px)]));
    assert_eq!(parse("-7"), Ok(vec![unit(-7, Unit::Arbitrary)]));
}

#[test]
fn negation_of_group() {
    assert_eq!(
        parse("-(10px 20px)"),
        Ok(vec![Parameter::Group(vec![unit(-10, Unit::Px), unit(-20, Unit::Px)])])
    );
    assert_eq!(
        parse("-(1 (2) x)"),
        Ok(vec![Parameter::Group(vec![
            unit(-1, Unit::Arbitrary),
            Parameter::Group(vec![unit(-2, Unit::Arbitrary)]),
            ident("x"),
        ])])
    );
}

#[test]
fn negation_of_identifier_is_no_op() {
    assert_eq!(parse("-foo"), Ok(vec![ident("foo")]));
    assert_eq!(parse("-\"s\""), Ok(vec![Parameter::String("s".to_string())]));
}

#[test]
fn procedural_function_precedence() {
    assert_eq!(
        parse("bg-clip(text):10px"),
        Ok(vec![Parameter::ProceduralFunction {
            name: "bg-clip".to_string(),
            procedural_parameters: vec![ident("text")],
            parameter: Box::new(unit(10, Unit::Px)),
        }])
    );
}

#[test]
fn functions() {
    assert_eq!(
        parse("h:10px w:(1 2)"),
        Ok(vec![
            Parameter::Function { name: "h".to_string(), parameter: Box::new(unit(10, Unit::Px)) },
            Parameter::Function {
                name: "w".to_string(),
                parameter: Box::new(Parameter::Group(vec![
                    unit(1, Unit::Arbitrary),
                    unit(2, Unit::Arbitrary),
                ])),
            },
        ])
    );
    assert_eq!(
        parse("a:b:c"),
        Ok(vec![Parameter::Function {
            name: "a".to_string(),
            parameter: Box::new(Parameter::Function { name: "b".to_string(), parameter: Box::new(ident("c")) }),
        }])
    );
}

#[test]
fn negated_function_negates_its_value() {
    assert_eq!(
        parse("-h:10px"),
        Ok(vec![Parameter::Function { name: "h".to_string(), parameter: Box::new(unit(-10, Unit::Px)) }])
    );
    assert_eq!(
        parse("-h:x"),
        Ok(vec![Parameter::Function { name: "h".to_string(), parameter: Box::new(ident("x")) }])
    );
}

#[test]
fn literals() {
    assert_eq!(parse("@\"a b\""), Ok(vec![Parameter::InjectedCSS("a b".to_string())]));
    assert_eq!(parse("\"q\" x 5 2%"), Ok(vec![
        Parameter::String("q".to_string()),
        ident("x"),
        unit(5, Unit::Arbitrary),
        unit(2, Unit::Percent),
    ]));
    assert_eq!(parse(""), Ok(vec![]));
}

#[test]
fn parse_errors() {
    assert_eq!(parse("h:"), Err(Error::UnexpectedEOF));
    assert_eq!(parse(":"), Err(Error::Unexpected(Unexpected::Token(Token::Colon))));
    assert_eq!(parse("px"), Err(Error::Unexpected(Unexpected::Token(Token::Unit(Unit::Px)))));
    assert_eq!(
        parse("@ 5"),
        Err(Error::Unexpected(Unexpected::Token(Token::Number(Number::from_int(5)))))
    );
    assert_eq!(parse("@"), Err(Error::UnexpectedEOF));
    assert_eq!(parse("-"), Err(Error::UnexpectedEOF));
    assert_eq!(parse("(:)"), Err(Error::Unexpected(Unexpected::Token(Token::Colon))));
    assert_eq!(parse("{a}"), Err(Error::Unexpected(Unexpected::Token(Token::Block(vec![Token::Ident("a".to_string())])))));
}

#[test]
fn negate_method() {
    assert_eq!(unit(3, Unit::Em).negate(true), unit(-3, Unit::Em));
    assert_eq!(unit(3, Unit::Em).negate(false), unit(3, Unit::Em));
    assert_eq!(unit(0, Unit::Em).negate(true), unit(0, Unit::Em));
    assert_eq!(ident("x").negate(true), ident("x"));
}

#[test]
fn unwrap_methods() {
    assert_eq!(unit(3, Unit::Em).unwrap_unit(), (Number::from_int(3), Unit::Em));
    assert_eq!(ident("x").unwrap_ident(), "x".to_string());
    assert_eq!(Parameter::String("s".to_string()).unwrap_string(), "s".to_string());
    let (name, value) = parse("h:1").unwrap().pop().unwrap().unwrap_function();
    assert_eq!(name, "h");
    assert_eq!(*value, unit(1, Unit::Arbitrary));
    let (name, params, value) = parse("f(a):1").unwrap().pop().unwrap().unwrap_procedural();
    assert_eq!((name.as_str(), params, *value), ("f", vec![ident("a")], unit(1, Unit::Arbitrary)));
    assert_eq!(Parameter::Group(vec![]).unwrap_group(), vec![]);
}

#[test]
fn duplicate_is_deep_copy() {
    let p = parse("f(a (b)):-(1 2)").unwrap();
    let q: Vec<Parameter> = p.iter().map(|x| x.duplicate()).collect();
    assert_eq!(p, q);
}

#[test]
fn clone_is_deep_copy() {
    let p = parse("g(-1):(a \"s\" @\"t\")").unwrap();
    assert_eq!(p.clone(), p);
    let t = lex("(1 {2})".to_string()).unwrap();
    assert_eq!(t.clone(), t);
    let e = Error::Unexpected(Unexpected::Token(Token::Colon));
    assert_eq!(e.clone(), e);
}
