use packet_routing::fraction::Fraction;

#[test]
fn ordering_test() {
    let a = Fraction::new(1, 2);
    let b = Fraction::new(3, 4);
    let c = Fraction::new(4, 3);
    assert!(a < b);
    assert!(a <= b);
    assert!(c > b);
    assert!(c >= a);
}

#[test]
fn equality_test() {
    let a = Fraction::new(1, 2);
    let b = Fraction::new(2, 4);
    let c = Fraction::new(5, 5);
    assert!(a == b);
    assert!(a != c);
}

#[test]
fn arithmetic_test() {
    let a = Fraction::new(1, 2);
    let b = Fraction::new(3, 4);
    let c = Fraction::new(1, 3);
    assert_eq!(a + a, Fraction::new(1, 1));
    assert_eq!(a - a, Fraction::new(0, 5));
    assert_eq!(a + b, Fraction::new(5, 4));
    assert_eq!(b - a, Fraction::new(1, 4));
    assert_eq!(a + c, Fraction::new(5, 6));
    assert_eq!(a - c, Fraction::new(1, 6));
}

#[test]
fn reduce_and_floor_test() {
    let a = Fraction::new(6, 4);
    let r = a.reduce();
    assert_eq!(r.numerator, 3);
    assert_eq!(r.denominator, 2);
    let f = a.floor();
    assert_eq!(f.numerator, 1);
    assert_eq!(f.denominator, 1);
    assert_eq!(Fraction::new(0, 7).floor().numerator, 0);
}

#[test]
fn multiplication_division_test() {
    let a = Fraction::new(2, 3);
    let b = Fraction::new(3, 4);
    assert_eq!(a * b, Fraction::new(1, 2));
    assert_eq!(a / b, Fraction::new(8, 9));
    assert_eq!((a * b) / b, a);
}

#[test]
fn law_examples_test() {
    // commutativity and associativity up to reduction, on concrete values
    let a = Fraction::new(1, 6);
    let b = Fraction::new(2, 5);
    let c = Fraction::new(3, 7);
    assert_eq!(a + b, b + a);
    assert_eq!(a * b, b * a);
    assert_eq!((a + b) + c, a + (b + c));
    assert_eq!((a * b) * c, a * (b * c));
    assert_eq!((a + b) - b, a);
    // ordering agrees on reduced forms
    let d = Fraction::new(4, 24);
    assert!(a == d);
    assert!(!(a < d) && !(d < a));
}

#[test]
fn gcd_test() {
    assert_eq!(packet_routing::fraction::gcd(12, 18), 6);
    assert_eq!(packet_routing::fraction::gcd(7, 3), 1);
    assert_eq!(packet_routing::fraction::gcd(0, 5), 5);
    assert_eq!(packet_routing::fraction::gcd(5, 0), 5);
}
