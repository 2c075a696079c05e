use surreal::Surreal;

const HI: i32 = 8;
const AV: i32 = 5;
const LO: i32 = 3;

fn zero() -> Surreal {
    Surreal::new(vec![], vec![]).unwrap()
}

fn day_gen(days: i32) -> Vec<Surreal> {
    if days == 1 {
        return vec![zero()];
    }

    let v = day_gen(days - 1);
    let mut w = vec![];
    w.push(Surreal::new(vec![], vec![&v[0]]).unwrap());

    for i in 0..v.len() {
        w.push(v[i].clone());
        if i != v.len() - 1 {
            w.push(Surreal::new(vec![&v[i]], vec![&v[i + 1]]).unwrap());
        }
    }

    w.push(Surreal::new(vec![&v[v.len() - 1]], vec![]).unwrap());
    w
}

#[test]
fn repr_cmp() {
    let v = day_gen(HI);

    for i in 0..v.len() {
        for j in 0..v.len() {
            if i < j {
                assert!(v[i] < v[j]);
            } else if i > j {
                assert!(v[i] > v[j]);
            } else {
                assert!(v[i] == v[j]);
            }
        }
    }
}

#[test]
fn repr_neg() {
    let v = day_gen(HI);

    for i in 0..v.len() {
        assert!(-&v[i] == v[v.len() - i - 1]);
    }
}

#[test]
fn repr_add() {
    let v = day_gen(AV);
    let zero = zero();

    for i in v.clone() {
        for j in v.clone() {
            let sum = &i + &j;

            if i < zero {
                if j < zero {
                    assert!(i > sum);
                    assert!(j > sum);
                    assert!(sum < zero);
                } else if j > zero {
                    if -&i > j {
                        assert!(sum < zero);
                    } else if -&i < j {
                        assert!(sum > zero);
                    } else {
                        assert!(sum == zero);
                    }
                } else {
                    assert!(i == sum)
                }
            } else if i > zero {
                if j < zero {
                    if i > -&j {
                        assert!(sum > zero);
                    } else if i < -&j {
                        assert!(sum < zero);
                    } else {
                        assert!(sum == zero);
                    }
                } else if j > zero {
                    assert!(i < sum);
                    assert!(j < sum);
                    assert!(sum > zero);
                }
            } else {
                assert!(j == sum)
            }
        }
    }
}

#[test]
fn repr_mul() {
    let v = day_gen(LO);
    let zero = zero();
    let one = Surreal::new(vec![&zero], vec![]).unwrap();
    let neg_one = Surreal::new(vec![], vec![&zero]).unwrap();

    for i in v.clone() {
        assert!(&i * &zero == zero);
        assert!(&i * &one == i);
        assert!(&i * &neg_one == -&i);

        for j in v.clone() {
            if (i < zero && j < zero) || (i > zero && j > zero) {
                assert!(&i * &j > zero);
            } else if (i < zero && j > zero) || (i > zero && j < zero) {
                assert!(&i * &j < zero);
            } else {
                assert!(&i * &j == zero);
            }
        }
    }
}
