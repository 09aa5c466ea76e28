use poloniex::decimal::{parse_integer, parse_units};
use poloniex::json::{parse, Json};

#[test]
fn decimal_texts_read_exactly() {
    assert_eq!(parse_units("0.12906425"), Some(12_906_425));
    assert_eq!(parse_units("12"), Some(1_200_000_000));
    assert_eq!(parse_units("1."), Some(100_000_000));
    assert_eq!(parse_units(".5"), Some(50_000_000));
    assert_eq!(parse_units("0.00000001"), Some(1));
    assert_eq!(parse_units("0.123456789"), None);
    assert_eq!(parse_units(""), None);
    assert_eq!(parse_units("."), None);
    assert_eq!(parse_units("1.2.3"), None);
    assert_eq!(parse_units("-1"), None);
    assert_eq!(parse_units("bad"), None);
    assert_eq!(parse_units("92233720368.54775807"), Some(i64::MAX as u64));
    assert_eq!(parse_units("92233720368.54775808"), None);
}

#[test]
fn integer_texts_read_exactly() {
    assert_eq!(parse_integer("1504163848"), Some(1504163848));
    assert_eq!(parse_integer("18446744073709551615"), Some(u64::MAX));
    assert_eq!(parse_integer("18446744073709551616"), None);
    assert_eq!(parse_integer("1.0"), None);
    assert_eq!(parse_integer(""), None);
}

#[test]
fn json_numbers_become_units() {
    let v = parse("[0.2331, 10, 1e-8, 1e-9, -1, 0]").unwrap();
    let items = match v {
        Json::Array(items) => items,
        _ => panic!("expected an array"),
    };
    let field = poloniex::error::Field::Amount;
    assert_eq!(items[0].expect_units(field).unwrap(), 23_310_000);
    assert_eq!(items[1].expect_units(field).unwrap(), 1_000_000_000);
    assert_eq!(items[2].expect_units(field).unwrap(), 1);
    assert!(items[3].expect_units(field).is_err());
    assert!(items[4].expect_units(field).is_err());
    assert_eq!(items[5].expect_units(field).unwrap(), 0);
}

#[test]
fn json_reader_builds_the_tree() {
    match parse(r#"{"a": ["x", true, null]}"#).unwrap() {
        Json::Object(members) => {
            assert_eq!(members.len(), 1);
            assert_eq!(members[0].0, "a");
            match &members[0].1 {
                Json::Array(items) => {
                    assert!(matches!(&items[0], Json::Text(s) if s == "x"));
                    assert!(matches!(items[1], Json::Boolean(true)));
                    assert!(matches!(items[2], Json::Null));
                }
                _ => panic!("expected an array"),
            }
        }
        _ => panic!("expected an object"),
    }
    assert!(parse("{").is_err());
}

#[test]
fn exponent_forms_read_like_numbers() {
    assert_eq!(parse_units("1e2"), Some(10_000_000_000));
    assert_eq!(parse_units("1E+2"), Some(10_000_000_000));
    assert_eq!(parse_units("1.5e-3"), Some(150_000));
    assert_eq!(parse_units("25e-10"), None);
    assert_eq!(parse_units("2500e-10"), Some(25));
    assert_eq!(parse_units("0e99999"), None);
    assert_eq!(parse_units("0e5"), Some(0));
    assert_eq!(parse_units("1e"), None);
    assert_eq!(parse_units("e5"), None);
    assert_eq!(parse_units("1e5x"), None);
    assert_eq!(parse_units("1.000000000000000000000000000000"), Some(100_000_000));
    let field = poloniex::error::Field::Amount;
    let v = parse(r#"[1e2, "1e2", 0.17328089, "0.17328089", 12.5e-1, "12.5e-1"]"#).unwrap();
    let items = match v {
        Json::Array(items) => items,
        _ => panic!("expected an array"),
    };
    for pair in items.chunks(2) {
        assert_eq!(pair[0].expect_units(field).unwrap(), pair[1].expect_units(field).unwrap());
    }
}
