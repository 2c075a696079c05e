use surreal::{add, divide, ftos, inv, is_divisible, is_pseudo, logic, mul_within, neg, stof};
use surreal::{Ceiling, Dyadic, Surreal, SurrealError, SurrealInf};

const ONE: i128 = 1 << 64;

fn zero() -> Surreal {
    Surreal::new(vec![], vec![]).unwrap()
}

fn whole(n: u32) -> Surreal {
    let mut s = zero();
    for _ in 0..n {
        s = Surreal::new(vec![&s], vec![]).unwrap();
    }
    s
}

fn minus(n: u32) -> Surreal {
    let mut s = zero();
    for _ in 0..n {
        s = Surreal::new(vec![], vec![&s]).unwrap();
    }
    s
}

fn between(a: &Surreal, b: &Surreal) -> Surreal {
    Surreal::new(vec![a], vec![b]).unwrap()
}

fn units(x: f64) -> Dyadic {
    Dyadic::from_units((x * 18446744073709551616.0) as i128)
}

fn list(v: &[f64]) -> Vec<Dyadic> {
    v.iter().map(|x| units(*x)).collect()
}

#[test]
fn dyadic_helpers() {
    assert_eq!(Dyadic::zero().units(), 0);
    assert_eq!(Dyadic::one().units(), ONE);
    assert_eq!(Dyadic::from_whole(-3).units(), -3 * ONE);
    assert_eq!(Dyadic::from_units(5).units(), 5);
    assert_eq!(units(0.5).units(), ONE / 2);
    assert!(units(1.0).is_close(&units(1.0 + 1.0 / 8388608.0)));
    assert!(!units(1.0).is_close(&units(1.0 + 1.0 / 4194304.0)));
    assert!(units(-1.0).is_close(&units(-1.0 - 1.0 / 8388608.0)));
    assert!(!Dyadic::from_units(i128::MAX).is_close(&Dyadic::from_units(i128::MIN)));
    assert!(units(-2.0).exceeds(&units(1.5)));
    assert!(!units(1.5).exceeds(&units(-1.5)));
    assert!(Dyadic::from_units(i128::MIN).exceeds(&Dyadic::from_units(i128::MAX)));
}

#[test]
fn simplicity_rule_by_cases() {
    assert_eq!(logic(&list(&[]), &list(&[])), units(0.0));
    assert_eq!(logic(&list(&[]), &list(&[3.0, -2.0, 5.0])), units(-3.0));
    assert_eq!(logic(&list(&[1.0, 4.5, -7.0]), &list(&[])), units(5.5));
    assert_eq!(logic(&list(&[0.0, 1.0, 0.5]), &list(&[4.0, 2.0, 3.0])), units(1.5));
    assert_eq!(logic(&list(&[-3.0]), &list(&[-2.0])), units(-2.5));
    assert_eq!(logic(&list(&[2.0, 2.0]), &list(&[2.0])), units(2.0));
}

#[test]
fn simplicity_rule_rounds_down_on_odd_units() {
    let l = vec![Dyadic::from_units(-4)];
    let r = vec![Dyadic::from_units(1)];
    assert_eq!(logic(&l, &r), Dyadic::from_units(-2));
    let l = vec![Dyadic::from_units(2)];
    let r = vec![Dyadic::from_units(5)];
    assert_eq!(logic(&l, &r), Dyadic::from_units(3));
}

#[test]
fn real_numbers_of_the_constants() {
    assert_eq!(stof(&zero()), Ok(units(0.0)));
    assert_eq!(stof(&Surreal::one()), Ok(units(1.0)));
    assert_eq!(stof(&Surreal::neg_one()), Ok(units(-1.0)));
    assert_eq!(stof(&Surreal::half()), Ok(units(0.5)));
    assert_eq!(stof(&whole(5)), Ok(units(5.0)));
    assert_eq!(stof(&minus(4)), Ok(units(-4.0)));
    assert_eq!(stof(&between(&whole(1), &whole(2))), Ok(units(1.5)));
}

#[test]
fn real_number_goes_by_the_rule_not_by_the_order() {
    // { 0 | 3 } equals one in the order, and the rule puts it midway.
    let x = between(&zero(), &whole(3));
    assert!(x == whole(1));
    assert_eq!(stof(&x), Ok(units(1.5)));
    // unsorted sides: the greatest left and the least right count
    let y = Surreal::new(vec![&minus(2), &whole(1), &zero()], vec![&whole(4), &whole(2)])
        .unwrap();
    assert_eq!(stof(&y), Ok(units(1.5)));
    // a pseudo-number has a real number by the rule as well
    let p = Surreal::pseudo(vec![&whole(1)], vec![&minus(1)]);
    assert_eq!(stof(&p), Ok(units(0.0)));
}

#[test]
fn real_number_stops_at_depth_64() {
    assert_eq!(stof(&whole(64)), Ok(units(64.0)));
    assert_eq!(stof(&whole(65)), Err(SurrealError::DepthExceeded));
    assert_eq!(stof(&minus(64)), Ok(units(-64.0)));
    assert_eq!(stof(&minus(70)), Err(SurrealError::DepthExceeded));
    let mut fine = whole(1);
    for _ in 0..63 {
        fine = between(&zero(), &fine);
    }
    assert_eq!(stof(&fine), Ok(Dyadic::from_units(2)));
    let finer = between(&zero(), &fine);
    assert_eq!(stof(&finer), Err(SurrealError::DepthExceeded));
}

#[test]
fn pseudo_test_reads_the_real_numbers_of_the_options() {
    assert_eq!(is_pseudo(&whole(3)), Ok(false));
    assert_eq!(is_pseudo(&between(&whole(1), &whole(2))), Ok(false));
    let p = Surreal::pseudo(vec![&whole(2)], vec![&whole(1), &whole(5)]);
    assert_eq!(is_pseudo(&p), Ok(true));
    let q = Surreal::pseudo(vec![&whole(1), &minus(3)], vec![&whole(1)]);
    assert_eq!(is_pseudo(&q), Ok(true));
    // { 0 | 3 } and one are equal in the order, yet their real numbers differ
    let r = Surreal::pseudo(vec![&whole(1)], vec![&between(&zero(), &whole(3))]);
    assert_eq!(is_pseudo(&r), Ok(false));
    assert_eq!(is_pseudo(&whole(65)), Ok(false));
    assert_eq!(is_pseudo(&whole(66)), Err(SurrealError::DepthExceeded));
}

#[test]
fn divisibility_by_256ths() {
    let h = Surreal::half();
    assert_eq!(is_divisible(&whole(1), &whole(2)), Ok(true));
    assert_eq!(is_divisible(&whole(1), &whole(3)), Ok(false));
    assert_eq!(is_divisible(&whole(3), &whole(3)), Ok(true));
    assert_eq!(is_divisible(&whole(6), &minus(3)), Ok(true));
    assert_eq!(is_divisible(&minus(1), &whole(3)), Ok(false));
    assert_eq!(is_divisible(&zero(), &whole(3)), Ok(true));
    assert_eq!(is_divisible(&whole(1), &zero()), Ok(false));
    assert_eq!(is_divisible(&zero(), &zero()), Ok(false));
    assert_eq!(is_divisible(&h, &whole(4)), Ok(true));
    // 1 / 512 is half of a 256th
    let mut five_twelve = whole(1);
    for _ in 0..9 {
        five_twelve = Surreal::new(vec![&five_twelve], vec![]).unwrap();
    }
    assert_eq!(stof(&five_twelve), Ok(units(10.0)));
    assert_eq!(is_divisible(&whole(1), &whole(65)), Err(SurrealError::DepthExceeded));
    assert_eq!(is_divisible(&whole(65), &whole(1)), Err(SurrealError::DepthExceeded));
}

#[test]
fn search_finds_quarter_steps() {
    let c = Ceiling::default();
    assert_eq!(ftos(units(0.0), c).unwrap().render(), zero().render());
    assert_eq!(ftos(units(1.0), c).unwrap().render(), Surreal::one().render());
    assert_eq!(ftos(units(-1.0), c).unwrap().render(), Surreal::neg_one().render());
    assert_eq!(ftos(units(0.5), c).unwrap().render(), Surreal::half().render());
    for k in -10i32..=10 {
        let x = k as f64 / 4.0;
        let s = ftos(units(x), c).unwrap();
        assert_eq!(stof(&s), Ok(units(x)));
    }
}

#[test]
fn search_finds_whole_numbers_as_sums_of_ones() {
    let c = Ceiling::new(0, 6, 6);
    let mut up = zero();
    let mut down = zero();
    for n in 1..=6u32 {
        up = add(&up, &Surreal::one());
        down = add(&down, &Surreal::neg_one());
        let found = ftos(units(n as f64), c).unwrap();
        assert_eq!(found.render(), up.render());
        assert_eq!(stof(&found), Ok(units(n as f64)));
        assert!(found == whole(n));
        assert!(ftos(stof(&whole(n)).unwrap(), c).unwrap() == whole(n));
        let found = ftos(units(-(n as f64)), c).unwrap();
        assert_eq!(found.render(), down.render());
        assert_eq!(stof(&found), Ok(units(-(n as f64))));
        assert!(found == minus(n));
        assert_eq!(down.render(), neg(&up).render());
    }
    assert_eq!(ftos(units(7.0), c), Err(SurrealError::DepthExceeded));
    assert_eq!(ftos(units(-7.0), c), Err(SurrealError::DepthExceeded));
}

#[test]
fn search_returns_zero_within_epsilon_of_zero() {
    let c = Ceiling::default();
    let tiny = units(1.0 / 8388608.0);
    assert_eq!(ftos(tiny, c).unwrap().render(), zero().render());
    assert_eq!(ftos(units(-1.0 / 16777216.0), c).unwrap().render(), zero().render());
}

#[test]
fn search_gives_up_at_its_ceilings() {
    // nine steps of one are one too many
    assert_eq!(ftos(units(9.0), Ceiling::new(4, 8, 10)), Err(SurrealError::DepthExceeded));
    assert!(ftos(units(8.0), Ceiling::new(4, 8, 10)).is_ok());
    assert_eq!(ftos(units(1.0), Ceiling::new(4, 0, 10)), Err(SurrealError::DepthExceeded));
    // an eighth needs the product of a quarter and a half
    assert_eq!(ftos(units(0.125), Ceiling::new(4, 8, 10)), Err(SurrealError::DepthExceeded));
    // three eighths: the cursor after one quarter would be two quarters, nested 12 deep
    assert_eq!(ftos(units(0.375), Ceiling::new(8, 8, 10)), Err(SurrealError::DepthExceeded));
    // seven steps of one need a cursor nested 7 deep
    assert_eq!(ftos(units(7.0), Ceiling::new(4, 8, 6)), Err(SurrealError::DepthExceeded));
    assert!(ftos(units(6.0), Ceiling::new(4, 8, 6)).is_ok());
    // a ceiling beyond 64 counts as 64
    assert!(ftos(units(3.0), Ceiling::new(4, 8, 1000)).is_ok());
    // a quarter needs the product of two halves
    assert_eq!(ftos(units(0.25), Ceiling::new(3, 8, 10)), Err(SurrealError::DepthExceeded));
    assert!(ftos(units(0.25), Ceiling::new(4, 8, 10)).is_ok());
    assert!(ftos(units(0.5), Ceiling::new(0, 8, 10)).is_ok());
}

#[test]
fn round_trip_on_day_three() {
    let c = Ceiling::default();
    let minus_two = minus(2);
    let minus_one = minus(1);
    let z = zero();
    let plus_one = whole(1);
    let plus_two = whole(2);
    let v = vec![
        minus_two.clone(),
        minus_one.clone(),
        between(&minus_one, &z),
        z.clone(),
        between(&z, &plus_one),
        plus_one.clone(),
        plus_two.clone(),
    ];
    let w = [-2.0, -1.0, -0.5, 0.0, 0.5, 1.0, 2.0];
    for i in 0..v.len() {
        assert_eq!(stof(&v[i]), Ok(units(w[i])));
        assert!(ftos(units(w[i]), c).unwrap() == v[i]);
        assert!(ftos(stof(&v[i]).unwrap(), c).unwrap() == v[i]);
    }
}

#[test]
fn inverse_of_powers_of_two() {
    let c = Ceiling::default();
    assert!(inv(&whole(2), c).unwrap() == Surreal::half());
    assert!(inv(&Surreal::half(), c).unwrap() == whole(2));
    assert!(inv(&minus(1), c).unwrap() == minus(1));
    assert!(inv(&whole(4), c).unwrap() == between(&zero(), &Surreal::half()));
    assert_eq!(stof(&inv(&minus(2), c).unwrap()), Ok(units(-0.5)));
}

#[test]
fn inverse_fails_as_stated() {
    let c = Ceiling::default();
    assert_eq!(inv(&zero(), c), Err(SurrealError::DivisionByZero));
    assert_eq!(inv(&between(&minus(1), &whole(1)), c), Err(SurrealError::DivisionByZero));
    assert_eq!(inv(&whole(3), c), Err(SurrealError::NonRepresentableQuotient));
    assert_eq!(inv(&minus(5), c), Err(SurrealError::NonRepresentableQuotient));
    assert_eq!(inv(&whole(8), c), Err(SurrealError::DepthExceeded));
    assert_eq!(inv(&whole(65), c), Err(SurrealError::DepthExceeded));
}

#[test]
fn division_fails_as_stated() {
    let c = Ceiling::default();
    let three = whole(3);
    assert_eq!(divide(&three, &zero(), c), Err(SurrealError::DivisionByZero));
    assert_eq!(
        divide(&three, &between(&minus(1), &whole(1)), c),
        Err(SurrealError::DivisionByZero)
    );
    assert_eq!(divide(&whole(1), &three, c), Err(SurrealError::NonRepresentableQuotient));
    assert_eq!(divide(&three, &three, c), Err(SurrealError::NonRepresentableQuotient));
    assert_eq!(divide(&whole(1), &whole(65), c), Err(SurrealError::DepthExceeded));
    assert_eq!(divide(&whole(1), &whole(8), c), Err(SurrealError::DepthExceeded));
    assert_eq!(divide(&three, &whole(2), c), Err(SurrealError::DepthExceeded));
    assert_eq!(&three / &zero(), Err(SurrealError::DivisionByZero));
}

#[test]
fn division_gate_on_day_three() {
    let c = Ceiling::default();
    let v = vec![
        minus(2),
        minus(1),
        between(&minus(1), &zero()),
        zero(),
        between(&zero(), &whole(1)),
        whole(1),
        whole(2),
    ];
    for x in &v {
        for y in &v {
            let q = divide(x, y, c);
            if *y == zero() {
                assert_eq!(q, Err(SurrealError::DivisionByZero));
            } else if !is_divisible(x, y).unwrap() {
                assert_eq!(q, Err(SurrealError::NonRepresentableQuotient));
            } else {
                let q = q.unwrap();
                let a = stof(&q).unwrap().units() / (ONE / 256);
                let b = stof(y).unwrap().units() / (ONE / 256);
                let c = stof(x).unwrap().units() / (ONE / 256);
                assert_eq!(a * b, c * 256);
                if let Ok(back) = mul_within(&q, y, 4) {
                    assert!(back == *x);
                }
            }
        }
    }
}

#[test]
fn generators_are_sampled_one_option_at_a_time() {
    let omega = SurrealInf::new(
        Some(|n: u32| Some(whole(n + 1))),
        Some(|_n: u32| None::<Surreal>),
    );
    assert!(omega.left(0).unwrap() == whole(1));
    assert!(omega.left(3).unwrap() == whole(4));
    assert!(omega.right(0).is_none());
    assert!(omega.right(7).is_none());
}

#[test]
fn a_side_without_generator_is_empty() {
    let none: Option<fn(u32) -> Option<Surreal>> = None;
    let s = SurrealInf::new(Some(|_n: u32| Some(zero())), none);
    assert_eq!(s.left(5).unwrap().render(), "({}, {})");
    assert!(s.right(0).is_none());
    assert!(s.right(u32::MAX).is_none());
    let first_three = SurrealInf::new(
        none,
        Some(|n: u32| if n < 3 { Some(whole(n)) } else { None }),
    );
    assert!(first_three.left(0).is_none());
    assert!(first_three.right(2).unwrap() == whole(2));
    assert!(first_three.right(3).is_none());
}
