use texturegen::process::{
    Blend, BlendType, Constant, EdgeDetect, EdgeDetectType, Invert, Noise, Process, Select, Setting,
    Stripes, VoronoiNoise,
};
use texturegen::value::{parse_bool, parse_number, parse_u32};
use texturegen::{decode_color, encode_color, Color, Number, ParseError};

fn num(s: &str) -> Number {
    parse_number(s).unwrap()
}

fn color(s: &str) -> Color {
    decode_color(s).unwrap()
}

#[test]
fn numbers_parse_and_render_as_written() {
    assert_eq!(num("0.5").to_string(), "0.5");
    assert_eq!(num("0.05").to_string(), "0.05");
    assert_eq!(num("-1.25").to_string(), "-1.25");
    assert_eq!(num("+3").to_string(), "3");
    assert_eq!(num(".5").to_string(), "0.5");
    assert_eq!(num("5.").to_string(), "5.");
    assert_eq!(num("007").to_string(), "7");
}

#[test]
fn malformed_numbers_are_refused() {
    assert!(parse_number("").is_none());
    assert!(parse_number(".").is_none());
    assert!(parse_number("-").is_none());
    assert!(parse_number("1.2.3").is_none());
    assert!(parse_number("1e5").is_none());
    assert!(parse_number("abc").is_none());
    assert!(parse_number("99999999999999999999").is_none());
}

#[test]
fn integers_parse_within_range() {
    assert_eq!(parse_u32("0"), Some(0));
    assert_eq!(parse_u32("+7"), Some(7));
    assert_eq!(parse_u32("4294967295"), Some(4294967295));
    assert_eq!(parse_u32("4294967296"), None);
    assert_eq!(parse_u32(""), None);
    assert_eq!(parse_u32("-1"), None);
    assert_eq!(parse_u32("12a"), None);
}

#[test]
fn flags_parse() {
    assert_eq!(parse_bool("1"), Some(true));
    assert_eq!(parse_bool("true"), Some(true));
    assert_eq!(parse_bool("0"), Some(false));
    assert_eq!(parse_bool("false"), Some(false));
    assert_eq!(parse_bool("yes"), None);
}

#[test]
fn color_round_trip_example() {
    let c = color("0.1,0.2,0.3,1");
    assert_eq!(c.red.to_string(), "0.1");
    assert_eq!(c.green.to_string(), "0.2");
    assert_eq!(c.blue.to_string(), "0.3");
    assert_eq!(c.alpha.to_string(), "1");
    assert_eq!(encode_color(&c), "0.1,0.2,0.3,1");
    assert_eq!(decode_color(&encode_color(&c)), Ok(c));
}

#[test]
fn color_field_count_and_extra_fields() {
    assert_eq!(decode_color("1,2"), Err(ParseError::WrongFieldCount));
    assert_eq!(decode_color(""), Err(ParseError::WrongFieldCount));
    assert_eq!(decode_color("a,b,c,d"), Err(ParseError::MalformedNumber));
    assert_eq!(decode_color("1,0,0,1,junk"), Ok(color("1,0,0,1")));
}

#[test]
fn stripes_settings_get_and_set() {
    let mut p = Stripes::new(8, 1, color("1,0.5,0,1"), color("0.5,0,0.5,1"));
    assert_eq!(p.settings(), vec!["horizontal", "vertical", "even color", "odd color"]);
    assert_eq!(p.setting("horizontal"), Some(Setting::Integer(1)));
    assert_eq!(p.setting("vertical"), Some(Setting::Integer(8)));
    assert_eq!(p.set_setting("horizontal", "4"), Ok(()));
    assert_eq!(p.setting("horizontal"), Some(Setting::Integer(4)));
    assert_eq!(p.set_setting("odd color", "0.1,0.2,0.3,1"), Ok(()));
    assert_eq!(p.setting("odd color"), Some(Setting::Color(color("0.1,0.2,0.3,1"))));
    assert_eq!(p.setting("nope"), None);
}

#[test]
fn failed_set_leaves_the_setting_alone() {
    let mut p = Stripes::new(8, 1, color("1,0.5,0,1"), color("0.5,0,0.5,1"));
    let before = p;
    assert_eq!(p.set_setting("horizontal", "x"), Err(ParseError::MalformedNumber));
    assert_eq!(p.set_setting("even color", "1,2,3"), Err(ParseError::WrongFieldCount));
    assert_eq!(p.set_setting("size", "3"), Err(ParseError::UnknownSetting));
    assert_eq!(p, before);
}

#[test]
fn every_setting_kind_round_trips_through_text() {
    let mut procs: Vec<Process> = vec![
        Constant::new(color("0.1,0.2,0.3,1")),
        Stripes::new(3, 4, color("1,1,1,1"), color("0,0,0,1")),
        VoronoiNoise::new(1, 2, 3, num("0.5"), num("0.25")),
        Noise::new(9, 2, 2),
        Blend::new(BlendType::Overlay, BlendType::Screen),
        EdgeDetect::new(num("0.75"), EdgeDetectType::Sobel),
        Select::new(num("0.5")),
        Invert::new(),
    ];
    for p in procs.iter_mut() {
        for key in p.settings() {
            let v = p.setting(key).unwrap();
            let text = v.to_string();
            assert_eq!(p.set_setting(key, &text), Ok(()));
            assert_eq!(p.setting(key), Some(v));
        }
    }
}

#[test]
fn blend_and_flag_settings() {
    let mut b = Blend::new(BlendType::Normal, BlendType::Normal);
    assert_eq!(b.set_setting("blend", "Multiply"), Ok(()));
    assert_eq!(b.setting("blend"), Some(Setting::Blend(BlendType::Multiply)));
    assert_eq!(b.set_setting("alpha", "Nothing"), Err(ParseError::MalformedNumber));
    assert_eq!(Setting::Blend(BlendType::Soft).to_string(), "Soft");
    let mut i = Invert::new();
    assert_eq!(i.setting("alpha"), Some(Setting::Boolean(false)));
    assert_eq!(i.set_setting("alpha", "true"), Ok(()));
    assert_eq!(Setting::Boolean(true).to_string(), "1");
    assert_eq!(i.setting("alpha"), Some(Setting::Boolean(true)));
}

#[test]
fn blend_type_names() {
    for t in BlendType::variants() {
        assert_eq!(BlendType::from_name(t.name()), Some(t));
    }
    assert_eq!(BlendType::variants().len(), 12);
    assert_eq!(BlendType::from_name("normal"), None);
}

#[test]
fn arities() {
    assert_eq!(Blend::new(BlendType::Add, BlendType::Add).max_in(), 2);
    assert_eq!(Select::new(num("1")).max_in(), 3);
    assert_eq!(Invert::new().max_in(), 1);
    assert_eq!(Noise::new(0, 1, 1).max_in(), 0);
    assert_eq!(Noise::new(0, 1, 1).max_out(), 1);
}

#[test]
fn color_fields_may_carry_whitespace() {
    assert_eq!(decode_color("0.1, 0.2,\t0.3 , 1 "), Ok(color("0.1,0.2,0.3,1")));
    assert_eq!(decode_color(" , 1, 1, 1"), Err(ParseError::MalformedNumber));
    assert_eq!(decode_color("1 1,1,1,1"), Err(ParseError::MalformedNumber));
}
