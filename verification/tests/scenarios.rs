use surreal::{add, cnv, leq, mul, mul_within, neg, sub};
use surreal::{Surreal, SurrealError};

fn zero() -> Surreal {
    Surreal::new(vec![], vec![]).unwrap()
}

fn one() -> Surreal {
    Surreal::new(vec![&zero()], vec![]).unwrap()
}

fn neg_one() -> Surreal {
    Surreal::new(vec![], vec![&zero()]).unwrap()
}

fn half() -> Surreal {
    Surreal::new(vec![&zero()], vec![&one()]).unwrap()
}

fn day(n: i32) -> Vec<Surreal> {
    if n == 1 {
        return vec![zero()];
    }
    let v = day(n - 1);
    let mut w = vec![];
    w.push(Surreal::new(vec![], vec![&v[0]]).unwrap());
    for i in 0..v.len() {
        w.push(v[i].clone());
        if i != v.len() - 1 {
            w.push(Surreal::new(vec![&v[i]], vec![&v[i + 1]]).unwrap());
        }
    }
    w.push(Surreal::new(vec![&v[v.len() - 1]], vec![]).unwrap());
    w
}

#[test]
fn constants_have_their_shape() {
    assert_eq!(Surreal::zero().render(), "({}, {})");
    assert_eq!(Surreal::one().render(), "({({}, {})}, {})");
    assert_eq!(Surreal::neg_one().render(), "({}, {({}, {})})");
    assert_eq!(Surreal::half().render(), "({({}, {})}, {({({}, {})}, {})})");
    assert_eq!(zero().render(), Surreal::zero().render());
    assert_eq!(one().render(), Surreal::one().render());
    assert_eq!(neg_one().render(), Surreal::neg_one().render());
    assert_eq!(half().render(), Surreal::half().render());
}

#[test]
fn render_separates_options_by_one_blank() {
    let two_lefts = Surreal::pseudo(vec![&zero(), &one(), &zero()], vec![&one(), &zero()]);
    assert_eq!(
        two_lefts.render(),
        "({({}, {}) ({({}, {})}, {}) ({}, {})}, {({({}, {})}, {}) ({}, {})})"
    );
}

#[test]
fn one_plus_minus_one_is_zero() {
    let sum = add(&one(), &neg_one());
    assert!(sum == zero());
    assert!(leq(&sum, &zero()) && leq(&zero(), &sum));
}

#[test]
fn day_two_is_three_values_in_order() {
    let v = day(2);
    assert_eq!(v.len(), 3);
    assert_eq!(v[0].render(), neg_one().render());
    assert_eq!(v[1].render(), zero().render());
    assert_eq!(v[2].render(), one().render());
}

#[test]
fn day_three_neighbours_are_strictly_increasing() {
    let v = day(3);
    assert_eq!(v.len(), 7);
    for i in 0..v.len() - 1 {
        assert!(v[i] < v[i + 1]);
        assert!(!leq(&v[i + 1], &v[i]));
        assert!(leq(&v[i], &v[i + 1]));
    }
}

#[test]
fn one_left_of_minus_one_is_refused() {
    let o = one();
    let m = neg_one();
    assert_eq!(Surreal::new(vec![&o], vec![&m]), Err(SurrealError::ValidationError));
    let p = Surreal::pseudo(vec![&o], vec![&m]);
    assert_eq!(p.render(), "({({({}, {})}, {})}, {({}, {({}, {})})})");
    assert_eq!(surreal::is_pseudo(&p), Ok(true));
    assert!(!p.is_number());
}

#[test]
fn equal_sides_are_refused() {
    let z = zero();
    assert_eq!(Surreal::new(vec![&z], vec![&z]), Err(SurrealError::ValidationError));
    let p = Surreal::pseudo(vec![&z], vec![&z]);
    assert_eq!(surreal::is_pseudo(&p), Ok(true));
    assert_eq!(surreal::is_pseudo(&z), Ok(false));
    assert_eq!(surreal::is_pseudo(&half()), Ok(false));
}

#[test]
fn a_pseudo_option_makes_no_number() {
    let z = zero();
    let p = Surreal::pseudo(vec![&z], vec![&z]);
    let q = Surreal::new(vec![&p], vec![]).unwrap();
    assert!(!q.is_number());
    assert_eq!(surreal::is_pseudo(&q), Ok(false));
    for x in day(4) {
        assert!(x.is_number());
    }
}

#[test]
fn order_is_reflexive_and_transitive_on_day_four() {
    let v = day(4);
    for x in &v {
        assert!(leq(x, x));
        assert!(x == x);
    }
    for x in &v {
        for y in &v {
            for z in &v {
                if leq(x, y) && leq(y, z) {
                    assert!(leq(x, z));
                }
            }
        }
    }
}

#[test]
fn reflexive_for_pseudo_numbers_too() {
    let p = Surreal::pseudo(vec![&one()], vec![&neg_one()]);
    assert!(leq(&p, &p));
}

#[test]
fn differently_built_equals_compare_equal() {
    // { -1 | 1 } is zero, and { 0 | 2 } is one.
    let a = Surreal::new(vec![&neg_one()], vec![&one()]).unwrap();
    assert!(a == zero());
    let two = Surreal::new(vec![&one()], vec![]).unwrap();
    let b = Surreal::new(vec![&zero()], vec![&two]).unwrap();
    assert!(b == one());
    assert!(b.render() != one().render());
}

#[test]
fn additive_laws_on_day_four() {
    let z = zero();
    for x in day(4) {
        assert!(add(&x, &neg(&x)) == z);
        assert!(add(&neg(&x), &x) == z);
        assert!(add(&x, &z) == x);
        assert_eq!(add(&x, &z).render(), x.render());
        assert_eq!(add(&z, &x).render(), x.render());
        assert!(neg(&neg(&x)) == x);
        assert_eq!(neg(&neg(&x)).render(), x.render());
        assert!(sub(&x, &x) == z);
        assert!(add(&x, &z).is_number());
        assert!(neg(&x).is_number());
    }
}

#[test]
fn addition_commutes_and_keeps_order_on_day_three() {
    let v = day(3);
    for x in &v {
        for y in &v {
            assert!(add(x, y) == add(y, x));
            assert!(add(x, y).is_number());
            for z in &v {
                assert_eq!(leq(y, z), leq(&add(x, y), &add(x, z)));
            }
        }
    }
}

#[test]
fn sum_has_the_options_of_the_rule() {
    // 1 + 1/2 = { 0 + 1/2, 0 + 1 | 1 + 1 }
    let s = add(&one(), &half());
    let l = s.left();
    let r = s.right();
    assert_eq!(l.len(), 2);
    assert_eq!(r.len(), 1);
    assert_eq!(l[0].render(), add(&zero(), &half()).render());
    assert_eq!(l[1].render(), add(&zero(), &one()).render());
    assert_eq!(r[0].render(), add(&one(), &one()).render());
}

#[test]
fn negative_swaps_the_sides() {
    let n = neg(&half());
    assert_eq!(n.left().len(), 1);
    assert_eq!(n.right().len(), 1);
    assert_eq!(n.left()[0].render(), neg_one().render());
    assert_eq!(n.right()[0].render(), zero().render());
}

#[test]
fn multiplicative_identities_are_exact() {
    for x in day(4) {
        assert_eq!(mul(&x, &one()).render(), x.render());
        assert_eq!(mul(&one(), &x).render(), x.render());
        assert_eq!(mul(&x, &zero()).render(), zero().render());
        assert_eq!(mul(&zero(), &x).render(), zero().render());
        assert_eq!(mul(&x, &neg_one()).render(), neg(&x).render());
        assert_eq!(mul(&neg_one(), &x).render(), neg(&x).render());
    }
}

#[test]
fn products_on_day_three_are_numbers_and_commute() {
    let v = day(3);
    let z = zero();
    for x in &v {
        for y in &v {
            let p = mul(x, y);
            assert!(p.is_number());
            assert!(p == mul(y, x));
            if (*x > z && *y > z) || (*x < z && *y < z) {
                assert!(p > z);
            } else if *x == z || *y == z {
                assert!(p == z);
            } else {
                assert!(p < z);
            }
        }
    }
}

#[test]
fn product_keeps_the_order_between_positive_factors() {
    // 1/2 < 1 < 2 and 1/2 < 2: x1 * y2 + x2 * y1 < x1 * y1 + x2 * y2
    let h = half();
    let o = one();
    let two = Surreal::new(vec![&o], vec![]).unwrap();
    let cross = add(&mul(&h, &two), &mul(&o, &h));
    let straight = add(&mul(&h, &h), &mul(&o, &two));
    assert!(cross < straight);
    // equal factors give equal products: { 0 | 2 } is one
    let also_one = Surreal::new(vec![&zero()], vec![&two]).unwrap();
    assert!(mul(&also_one, &h) == mul(&o, &h));
    assert!(mul(&h, &also_one) == h);
}

#[test]
fn half_times_half_follows_the_rule() {
    let h = half();
    let q = mul(&h, &h);
    // left: (0, 0) and (1, 1); right: (0, 1) and (1, 0)
    let l = q.left();
    let r = q.right();
    assert_eq!(l.len(), 2);
    assert_eq!(r.len(), 2);
    let z = zero();
    let o = one();
    let term = |a: &Surreal, b: &Surreal| sub(&add(&mul(a, &h), &mul(&h, b)), &mul(a, b));
    assert_eq!(l[0].render(), term(&z, &z).render());
    assert_eq!(l[1].render(), term(&o, &o).render());
    assert_eq!(r[0].render(), term(&z, &o).render());
    assert_eq!(r[1].render(), term(&o, &z).render());
    let quarter = Surreal::new(vec![&z], vec![&h]).unwrap();
    assert!(q == quarter);
}

#[test]
fn product_is_refused_beyond_the_ceiling() {
    let two = Surreal::new(vec![&one()], vec![]).unwrap();
    let three = Surreal::new(vec![&two], vec![]).unwrap();
    assert_eq!(mul_within(&two, &three, 4), Err(SurrealError::DepthExceeded));
    assert_eq!(mul_within(&two, &two, 3), Err(SurrealError::DepthExceeded));
    let four = mul_within(&two, &two, 4).unwrap();
    assert_eq!(four.render(), mul(&two, &two).render());
    let deep = day(7).pop().unwrap();
    assert_eq!(mul_within(&deep, &one(), 0).unwrap().render(), deep.render());
    assert_eq!(mul_within(&zero(), &deep, 0).unwrap().render(), zero().render());
    assert_eq!(mul_within(&deep, &neg_one(), 0).unwrap().render(), neg(&deep).render());
}

#[test]
fn depth_counts_the_nesting() {
    assert_eq!(zero().depth_within(0), Some(0));
    assert_eq!(one().depth_within(0), None);
    assert_eq!(one().depth_within(1), Some(1));
    assert_eq!(half().depth_within(5), Some(2));
    assert_eq!(half().depth_within(1), None);
    let top = day(6).pop().unwrap();
    assert_eq!(top.depth_within(5), Some(5));
    assert_eq!(top.depth_within(4), None);
}

#[test]
fn copies_are_independent() {
    let h = half();
    let mut l = h.left();
    l.push(one());
    l.clear();
    assert_eq!(h.left().len(), 1);
    assert_eq!(h.right().len(), 1);
    assert_eq!(h.right()[0].render(), one().render());
    let o = one();
    let z = zero();
    let v = cnv(vec![&o, &z, &h]);
    assert_eq!(v.len(), 3);
    assert_eq!(v[0].render(), o.render());
    assert_eq!(v[1].render(), z.render());
    assert_eq!(v[2].render(), h.render());
    assert_eq!(h.clone().render(), h.render());
}
