use marscalc::Number;

#[test]
fn calc_1_plus_1() {
    let a = Number::parse("1").unwrap();
    let b = Number::parse("1").unwrap();
    let result = a.add(b).format();

    assert_eq!(result, "2");
}

#[test]
fn calc_minus_1_plus_2() {
    let a = Number::parse("-1").unwrap();
    let b = Number::parse("2").unwrap();
    let result = a.add(b).format();

    assert_eq!(result, "1");
}

#[test]
fn calc_3_times_3_dot_0() {
    let a = Number::parse("3").unwrap();
    let b = Number::parse("3,0").unwrap();
    let result = a.mul(b).format();

    assert_eq!(result, "10");
}

#[test]
fn calc_1_dot_3_plus_2_dot_6() {
    let a = Number::parse("1,3").unwrap();
    let b = Number::parse("2,6").unwrap();
    let result = a.add(b).format();

    assert_eq!(result, "4");
}

#[test]
fn calc_1_dot_3_minus_2_dot_6() {
    let a = Number::parse("1,3").unwrap();
    let b = Number::parse("2,6").unwrap();
    let result = a.sub(b).format();

    assert_eq!(result, "-1,3");
}

#[test]
fn calc_10_times_12_dot_3() {
    let a = Number::parse("10").unwrap();
    let b = Number::parse("12,3").unwrap();
    let result = a.mul(b).format();

    assert_eq!(result, "123");
}

#[test]
fn calc_0034_plus_5_dot_0() {
    let a = Number::parse("0034").unwrap();
    let b = Number::parse("5,0").unwrap();
    let result = a.add(b).format();

    assert_eq!(result, "40");
}

#[test]
fn calc_2_dot_4_times_1_dot_3() {
    let a = Number::parse("2,4").unwrap();
    let b = Number::parse("1,3").unwrap();
    let result = a.mul(b).format();

    assert_eq!(result, "3,23");
}

#[test]
fn calc_with_many_digits() {
    let a = Number::parse("800000000000000000000000000000000").unwrap();
    let b = Number::parse("0,0000000000000000000000000007").unwrap();
    let result = a.add(b).format();

    assert_eq!(
        result,
        "800000000000000000000000000000000,0000000000000000000000000007"
    );
}

#[test]
fn calc_0_dot_2_times_0_dot_2() {
    let a = Number::parse("0,2").unwrap();
    let b = Number::parse("0,2").unwrap();
    let result = a.mul(b).format();

    assert_eq!(result, "0,04");
}
