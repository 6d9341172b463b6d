use dice::roll::Roll;
use dice::rollspec::parse;

#[test]
fn expressions_are_written_back() {
    assert_eq!(parse("3d6").unwrap().to_expr(), "3d6");
    assert_eq!(parse("d6").unwrap().to_expr(), "1d6");
    assert_eq!(parse("6").unwrap().to_expr(), "1d6");
    assert_eq!(parse("4d6d1").unwrap().to_expr(), "4d6d1");
    assert_eq!(parse("2d20K1+7").unwrap().to_expr(), "2d20K1+7");
    assert_eq!(parse("2d8D1-10").unwrap().to_expr(), "2d8D1-10");
    assert_eq!(parse("007d6k0+0").unwrap().to_expr(), "7d6");
}

#[test]
fn written_expressions_read_back_the_same() {
    for t in ["3d6", "d6", "6", "4d6d1", "2d20K1+7", "2d8K1-1", "10d10k3", "5d4D2+0", "1d6-9223372036854775807"] {
        let r = parse(t).unwrap();
        assert_eq!(parse(&r.to_expr()).unwrap(), r);
    }
}

#[test]
fn specifications_are_described() {
    assert_eq!(parse("3d6+1").unwrap().describe(), "3d6 +1");
    assert_eq!(parse("4d6d1").unwrap().describe(), "4d6 drop lowest 1");
    assert_eq!(parse("2d20D1").unwrap().describe(), "2d20 drop highest 1");
    assert_eq!(parse("4d6k3").unwrap().describe(), "4d6 keep highest 3");
    assert_eq!(parse("2d8K1-1").unwrap().describe(), "2d8 keep lowest 1 -1");
}

#[test]
fn rolls_are_described() {
    let roll = Roll { rolls: vec![2, 5, 6], sum: 13 };
    assert_eq!(roll.describe(), "[2, 5, 6]\t13");
    let roll = Roll { rolls: vec![], sum: -3 };
    assert_eq!(roll.describe(), "[]\t-3");
    let roll = Roll { rolls: vec![7], sum: 7 };
    assert_eq!(roll.describe(), "[7]\t7");
}
