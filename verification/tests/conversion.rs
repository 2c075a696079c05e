use surreal::{ftos, is_divisible, stof};
use surreal::{Ceiling, Dyadic, Surreal, SurrealError};

const HI: i32 = 8;
const AV: i32 = 5;
const LO: i32 = 3;

fn dyadic(x: f32) -> Dyadic {
    Dyadic::from_units((x as f64 * 18446744073709551616.0) as i128)
}

fn to_f32(d: Dyadic) -> f32 {
    (d.units() as f64 / 18446744073709551616.0) as f32
}

fn day_gen(days: i32) -> Vec<Surreal> {
    if days == 1 {
        return vec![Surreal::new(vec![], vec![]).unwrap()];
    }

    let v = day_gen(days - 1);
    let mut w = vec![];
    w.push(Surreal::new(vec![], vec![&v[0]]).unwrap());

    for i in 0..v.len() {
        w.push(v[i].clone());
        if i != v.len() - 1 {
            w.push(Surreal::new(vec![&v[i]], vec![&v[i + 1]]).unwrap());
        }
    }

    w.push(Surreal::new(vec![&v[v.len() - 1]], vec![]).unwrap());
    w
}

fn xtra_gen(days: i32) -> Vec<f32> {
    if days == 1 {
        return vec![0.0];
    }

    let v = xtra_gen(days - 1);
    let mut w = vec![];
    w.push(v[0] - 1.0);

    for i in 0..v.len() {
        w.push(v[i]);
        if i != v.len() - 1 {
            w.push((v[i] + &v[i + 1]) / 2.0);
        }
    }

    w.push(v[v.len() - 1] + 1.0);
    w
}

#[test]
fn conv_stof() {
    let v = day_gen(HI);
    let w = xtra_gen(HI);

    for i in 0..v.len() {
        assert!(to_f32(stof(&v[i]).unwrap()) == w[i]);
        assert_eq!(stof(&v[i]).unwrap(), dyadic(w[i]));
    }
}

#[test]
fn conv_ftos() {
    let v = day_gen(AV);
    let w = xtra_gen(AV);

    for i in 0..v.len() {
        match ftos(dyadic(w[i]), Ceiling::default()) {
            Ok(s) => assert!(s == v[i]),
            // finer than quarters, the step would take a product beyond the ceiling
            Err(e) => {
                assert_eq!(e, SurrealError::DepthExceeded);
                assert!((w[i] * 4.0).fract() != 0.0);
            }
        }
        if (w[i] * 4.0).fract() == 0.0 {
            assert!(ftos(dyadic(w[i]), Ceiling::default()).unwrap() == v[i]);
        }
    }
}

#[test]
fn repr_div() {
    let v = day_gen(LO);
    let w = xtra_gen(LO);
    let zero = Surreal::new(vec![], vec![]).unwrap();
    let one = Surreal::new(vec![&zero], vec![]).unwrap();
    let neg_one = Surreal::new(vec![], vec![&zero]).unwrap();

    for i in 0..v.len() {
        assert!((&v[i] / &neg_one).unwrap() == -&v[i]);
        assert!((&v[i] / &one).unwrap() == v[i]);
        if v[i] != zero {
            assert!((&zero / &v[i]).unwrap() == zero);
            assert!((&v[i] / &v[i]).unwrap() == one);
        }

        for j in 0..v.len() {
            if w[j] != 0.0 && is_divisible(&v[i], &v[j]).unwrap() {
                if (w[i] < 0.0 && w[j] < 0.0) || (w[i] > 0.0 && w[j] > 0.0) {
                    assert!((&v[i] / &v[j]).unwrap() > zero);
                } else if (w[i] < 0.0 && w[j] > 0.0) || (w[i] > 0.0 && w[j] < 0.0) {
                    assert!((&v[i] / &v[j]).unwrap() < zero);
                }
            }
        }
    }
}
