use dice::grammar::{ExprParser, Part, Rule};
use dice::rollspec::{parse, ParseErrorKind, RollSpec};

fn spec(num: usize, size: i64) -> RollSpec {
    RollSpec {
        num,
        size,
        keep_high: 0,
        keep_low: 0,
        drop_low: 0,
        drop_high: 0,
        modifier: 0,
    }
}

#[test]
fn test_parse_3d6() {
    match parse("3d6") {
        Ok(r) => {
            println!("roll: {}", r.describe());
            assert_eq!(r, spec(3, 6));
        }
        Err(e) => panic!("NOOOOOO {:?}", e),
    }
}

#[test]
fn test_parse_d6() {
    match parse("d6") {
        Ok(r) => {
            println!("roll: {}", r.describe());
            assert_eq!(r, spec(1, 6));
        }
        Err(e) => panic!("NOOOOOO {:?}", e),
    }
}

#[test]
fn test_parse_6() {
    match parse("6") {
        Ok(r) => {
            println!("roll: {}", r.describe());
            assert_eq!(r, spec(1, 6));
        }
        Err(e) => panic!("NOOOOOO {:?}", e),
    }
}

#[test]
fn test_parse_garbage() {
    match parse("3d8*2") {
        Ok(_r) => assert!(1 + 1 == 3),
        Err(_e) => assert!(1 + 2 == 3),
    }
}

#[test]
fn garbage_stops_at_the_operator() {
    let e = parse("3d8*2").unwrap_err();
    assert_eq!(e.input, "3d8*2");
    assert_eq!(e.kind, ParseErrorKind::Syntax { at: 3 });
}

#[test]
fn drop_lowest_is_read() {
    let r = parse("4d6d1").unwrap();
    assert_eq!(r, RollSpec { drop_low: 1, ..spec(4, 6) });
}

#[test]
fn keep_lowest_with_modifier_is_read() {
    let r = parse("2d20K1+7").unwrap();
    assert_eq!(r, RollSpec { keep_low: 1, modifier: 7, ..spec(2, 20) });
}

#[test]
fn each_letter_fills_its_count() {
    assert_eq!(parse("4d6D2").unwrap(), RollSpec { drop_high: 2, ..spec(4, 6) });
    assert_eq!(parse("4d6k3").unwrap(), RollSpec { keep_high: 3, ..spec(4, 6) });
    assert_eq!(parse("4d6K3").unwrap(), RollSpec { keep_low: 3, ..spec(4, 6) });
}

#[test]
fn subtracted_modifier_is_negative() {
    assert_eq!(parse("3d6-2").unwrap(), RollSpec { modifier: -2, ..spec(3, 6) });
    assert_eq!(parse("2d8K1-1").unwrap(), RollSpec { keep_low: 1, modifier: -1, ..spec(2, 8) });
}

#[test]
fn leading_zeros_are_read() {
    assert_eq!(parse("03d010").unwrap(), spec(3, 10));
}

#[test]
fn empty_token_is_refused() {
    assert_eq!(parse("").unwrap_err().kind, ParseErrorKind::Syntax { at: 0 });
}

#[test]
fn malformed_tokens_report_where_they_stop() {
    assert_eq!(parse("3d").unwrap_err().kind, ParseErrorKind::Syntax { at: 2 });
    assert_eq!(parse("x").unwrap_err().kind, ParseErrorKind::Syntax { at: 0 });
    assert_eq!(parse("4d6d1d2").unwrap_err().kind, ParseErrorKind::Syntax { at: 5 });
    assert_eq!(parse("4d6k").unwrap_err().kind, ParseErrorKind::Syntax { at: 4 });
    assert_eq!(parse("4d6+").unwrap_err().kind, ParseErrorKind::Syntax { at: 4 });
    assert_eq!(parse("4d6+1x").unwrap_err().kind, ParseErrorKind::Syntax { at: 5 });
    assert_eq!(parse("6+1").unwrap_err().kind, ParseErrorKind::Syntax { at: 1 });
    assert_eq!(parse("3d6 ").unwrap_err().kind, ParseErrorKind::Syntax { at: 3 });
    assert_eq!(parse("3dé").unwrap_err().kind, ParseErrorKind::Syntax { at: 2 });
    assert_eq!(parse("é").unwrap_err().kind, ParseErrorKind::Syntax { at: 0 });
}

#[test]
fn numbers_too_large_for_their_field_are_refused() {
    let e = parse("3d9223372036854775808").unwrap_err();
    assert_eq!(e.kind, ParseErrorKind::Overflow { rule: Rule::DieSize, start: 2, end: 21 });
    assert_eq!(parse("3d9223372036854775807").unwrap().size, i64::MAX);
    let e = parse("18446744073709551616d6").unwrap_err();
    assert_eq!(e.kind, ParseErrorKind::Overflow { rule: Rule::NDice, start: 0, end: 20 });
    let e = parse("1d6-9223372036854775808").unwrap_err();
    assert_eq!(e.kind, ParseErrorKind::Overflow { rule: Rule::SubtractValue, start: 4, end: 23 });
    assert_eq!(parse("1d6-9223372036854775807").unwrap().modifier, -i64::MAX);
}

#[test]
fn zero_sided_dice_are_refused() {
    assert_eq!(parse("3d0").unwrap_err().kind, ParseErrorKind::ZeroSize);
    assert_eq!(parse("0").unwrap_err().kind, ParseErrorKind::ZeroSize);
}

#[test]
fn counts_above_the_dice_are_left_to_rolling() {
    assert_eq!(parse("2d6k3").unwrap(), RollSpec { keep_high: 3, ..spec(2, 6) });
}

#[test]
fn parser_gives_the_sub_matches() {
    let parts = ExprParser::parse("2d20K1+7").unwrap();
    assert_eq!(
        parts,
        vec![
            Part { rule: Rule::NDice, start: 0, end: 1 },
            Part { rule: Rule::DieSize, start: 2, end: 4 },
            Part { rule: Rule::NLowToKeep, start: 5, end: 6 },
            Part { rule: Rule::AddValue, start: 7, end: 8 },
        ]
    );
    assert_eq!(ExprParser::parse("12").unwrap(), vec![Part { rule: Rule::DieSize, start: 0, end: 2 }]);
    assert_eq!(ExprParser::parse("d4").unwrap(), vec![Part { rule: Rule::DieSize, start: 1, end: 2 }]);
    assert_eq!(ExprParser::parse("3d8*2"), Err(3));
}
