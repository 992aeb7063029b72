use zygote_core::params::{is_float_literal_exec, parse_hex_color, ParamSpec, ParamType};

fn chars(s: &str) -> Vec<char> {
    s.chars().collect()
}

#[test]
fn conform_clamps_and_coerces() {
    let choice = ParamType::Choice { options: vec!["a".into(), "b".into()] };
    assert_eq!(choice.choice_index(&"b".to_string()), Some(1));
    assert_eq!(choice.choice_index(&"zzz".to_string()), None);
    let ty = ParamType::Float { min: "0".into(), max: "1".into() };
    assert_eq!(ty.choice_index(&"a".to_string()), None);
}

#[test]
fn float_literals_follow_the_f32_grammar() {
    for ok in ["0", "1.", ".5", "-1.5e3", "+2E-7", "inf", "-Infinity", "NaN", "007"] {
        assert!(is_float_literal_exec(&chars(ok)), "{ok}");
        assert!(ok.parse::<f32>().is_ok(), "{ok}");
    }
    for bad in ["", ".", "-", "1e", "e5", "1.2.3", "0x10", "abc", "1 ", "++1", "in"] {
        assert!(!is_float_literal_exec(&chars(bad)), "{bad}");
        assert!(bad.parse::<f32>().is_err(), "{bad}");
    }
}

#[test]
fn hex_colors() {
    assert_eq!(parse_hex_color(&chars("#ff8040")), Some([255, 128, 64, 255]));
    assert_eq!(parse_hex_color(&chars("#FF804080")), Some([255, 128, 64, 128]));
    assert_eq!(parse_hex_color(&chars("ff8040")), None);
    assert_eq!(parse_hex_color(&chars("#ff80")), None);
    assert_eq!(parse_hex_color(&chars("#gg8040")), None);
}

#[test]
fn constructors_fill_every_field() {
    let p = ParamSpec::choice("mode", &["a", "b"], "b", "doc");
    assert_eq!(p.name, "mode");
    assert!(matches!(&p.ty, ParamType::Choice { options } if options == &vec!["a".to_string(), "b".to_string()]));
    assert_eq!(p.doc, "doc");
    assert_eq!(p.ty.kind(), zygote_core::params::ParamKind::Choice);
}
