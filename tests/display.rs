use screw_css::display::ParameterDisplay;
use screw_css::number::{Number, Unit};
use screw_css::parser::{parser, Parameter};
use screw_css::tokenizer::lex;

fn parse(s: &str) -> Vec<Parameter> {
    parser(&lex(s.to_string()).unwrap()).unwrap()
}

#[test]
fn numbers_and_units() {
    let p = Parameter::Unit(Number { negative: false, mantissa: 125, exponent: -1 }, Unit::Px);
    assert_eq!(p.to_string(), "12.5px");
    assert_eq!(Parameter::Unit(Number::from_int(-10), Unit::Arbitrary).to_string(), "-10");
    assert_eq!(Parameter::Unit(Number { negative: false, mantissa: 5, exponent: -2 }, Unit::Percent).to_string(), "0.05%");
    assert_eq!(Parameter::Unit(Number { negative: true, mantissa: 1, exponent: 3 }, Unit::VMax).to_string(), "-1000vmax");
    assert_eq!(Parameter::Unit(Number::from_int(0), Unit::Deg).to_string(), "0deg");
}

#[test]
fn strings_in_quoted_form() {
    assert_eq!(Parameter::String("a\"b".to_string()).to_string(), "\"a\\\"b\"");
    assert_eq!(Parameter::InjectedCSS("x y".to_string()).to_string(), "@\"x y\"");
    assert_eq!(Parameter::Ident("abc".to_string()).to_string(), "abc");
}

#[test]
fn functions_and_groups() {
    let ps = parse("h:10px bg-clip(text):-(1 2)");
    assert_eq!(ParameterDisplay(ps).to_string(), " h:10px bg-clip( text ):( -1 -2 ) ");
    assert_eq!(ParameterDisplay(vec![]).to_string(), " ");
    assert_eq!(parse("()")[0].to_string(), "( )");
}

#[test]
fn printed_text_parses_back() {
    let source = "h:10px bg-clip(text):-(1.5 2%) @\"raw\" \"s\" w:0x1f";
    let first = parse(source);
    let printed = ParameterDisplay(first.iter().map(|p| p.duplicate()).collect()).to_string();
    assert_eq!(parse(&printed), first);
}

#[test]
fn measurements_print_and_read_back() {
    let numbers = [
        Number::from_int(0),
        Number::from_int(-10),
        Number { negative: false, mantissa: 125, exponent: -1 },
        Number { negative: true, mantissa: 5, exponent: -3 },
        Number { negative: false, mantissa: 7, exponent: 4 },
    ];
    let units = [Unit::Px, Unit::Percent, Unit::Arbitrary, Unit::VMax, Unit::Deg];
    for n in numbers {
        for u in units {
            let p = Parameter::Unit(n, u);
            assert_eq!(parse(&p.to_string()), vec![Parameter::Unit(n, u)]);
        }
    }
}

#[test]
fn function_sequences_print_and_read_back() {
    let ps = parse("h:10px w:-50% gap:0.25 top:-0x10vh");
    let printed = ParameterDisplay(ps.clone()).to_string();
    assert_eq!(printed, " h:10px w:-50% gap:0.25 top:-16vh ");
    assert_eq!(parse(&printed), ps);
}
