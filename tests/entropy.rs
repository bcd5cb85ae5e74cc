use number_place::{Entropy, Value};

fn digit(i: u32) -> Value {
    Value::new(i).unwrap()
}

#[test]
fn entropy_len_disable() {
    let mut len = 9;
    let mut entropy = Entropy::new();
    assert_eq!(entropy.len(), len);
    for i in 1..9 {
        len -= 1;
        entropy.disable(&Value::new(i).unwrap()).unwrap();
        assert_eq!(entropy.len(), len);
        entropy.disable(&Value::new(i).unwrap()).unwrap();
        assert_eq!(entropy.len(), len);
    }
    entropy.disable(&Value::new(9).unwrap()).unwrap_err();
}

#[test]
fn value_into_is_possible() {
    for i in 1..=9 {
        let value = &Value::new(i).unwrap();
        let entropy: Entropy = value.clone().into();
        assert_eq!(entropy.len(), 1);
        assert!(entropy.is_possible(value));
        for j in 1..=9 {
            if j != i {
                assert!(!entropy.is_possible(&Value::new(j).unwrap()));
            }
        }
    }
}

#[test]
fn new_converged_is_converged_is_possible() {
    for i in 1..=9 {
        let value = &Value::new(i).unwrap();
        let entropy = Entropy::new_converged(value.clone());
        assert!(entropy.is_converged());
        assert_eq!(entropy.len(), 1);
        assert!(entropy.is_possible(value));
        for j in 1..=9 {
            if j != i {
                assert!(!entropy.is_possible(&Value::new(j).unwrap()));
            }
        }
    }
}

#[test]
fn entropy_new_try_converge() {
    for i in 1..=9 {
        let test_value = Value::new(i).unwrap();
        let mut entropy = Entropy::new();
        let mut rest = entropy.superimpose(test_value.clone().into()).unwrap();
        assert_eq!(entropy.len(), 1);
        assert_eq!(rest.len(), 8);
        while let Some(rest_value) = rest.next() {
            assert_ne!(rest_value, test_value);
        }
    }
    let mut entropy = Entropy::new();
    entropy.disable(&Value::new(1).unwrap()).unwrap();
    entropy.superimpose(Value::new(1).unwrap().into()).unwrap_err();
    entropy.superimpose(Value::new(2).unwrap().into()).unwrap();
    assert_eq!(entropy.len(), 1);

    for i in 1..=9 {
        let test_value = Value::new(i).unwrap();
        let mut entropy = Entropy::new();
        let mut rest = entropy.try_converge(&test_value).unwrap();
        assert_eq!(entropy.len(), 1);
        assert_eq!(rest.len(), 8);
        while let Some(rest_value) = rest.next() {
            assert_ne!(rest_value, test_value);
        }
    }
    let mut entropy = Entropy::new();
    entropy.disable(&Value::new(1).unwrap()).unwrap();
    entropy.try_converge(&Value::new(1).unwrap()).unwrap_err();
    entropy.try_converge(&Value::new(2).unwrap()).unwrap();
    assert_eq!(entropy.len(), 1);
}

#[test]
fn full_set_disable_each_digit() {
    for d in 1..=9 {
        let mut e = Entropy::new();
        assert!(e.is_possible(&digit(d)));
        assert_eq!(e.disable(&digit(d)).unwrap(), true);
        assert!(!e.is_possible(&digit(d)));
        assert_eq!(e.len(), 8);
        assert_eq!(e.disable(&digit(d)).unwrap(), false);
        assert_eq!(e.len(), 8);
    }
}

#[test]
fn singleton_disable_conflicts() {
    for d in 1..=9 {
        let mut e = Entropy::new_converged(digit(d));
        let err = e.disable(&digit(d)).unwrap_err();
        assert_eq!(err.main_entropy, Entropy::new_converged(digit(d)));
        assert_eq!(e.len(), 1);
        assert!(e.is_possible(&digit(d)));
    }
}

#[test]
fn value_range() {
    assert!(Value::new(0).is_none());
    assert!(Value::new(10).is_none());
    for d in 1..=9 {
        assert_eq!(Value::new(d).unwrap().digit(), d);
    }
}

#[test]
fn superimpose_returns_removed_digits() {
    let mut e = Entropy::new();
    let mut other = Entropy::new();
    for d in [1, 3, 5] {
        other.disable(&digit(d)).unwrap();
    }
    let mut rest = e.superimpose(other).unwrap();
    assert_eq!(e.len(), 6);
    assert_eq!(rest.next(), Some(digit(1)));
    assert_eq!(rest.next(), Some(digit(3)));
    assert_eq!(rest.next(), Some(digit(5)));
    assert_eq!(rest.next(), None);
    let err = Entropy::new_converged(digit(4))
        .superimpose(Entropy::new_converged(digit(7)))
        .unwrap_err();
    assert_eq!(err.conflicting_entropy, Entropy::new_converged(digit(7)));
}

#[test]
fn check_convergence_and_bits() {
    assert_eq!(Entropy::new().check_convergence(), None);
    assert_eq!(Entropy::new_converged(digit(6)).check_convergence(), Some(digit(6)));
    assert_eq!(Entropy::new().bits(), 0x3fe);
    assert_eq!(Entropy::new_converged(digit(3)).bits(), 0b1000);
    assert!(Entropy::from_bits(0).is_none());
    assert!(Entropy::from_bits(1).is_none());
    assert!(Entropy::from_bits(0x400).is_none());
    assert_eq!(Entropy::from_bits(0b110).unwrap().len(), 2);
}
