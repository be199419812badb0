use rubikcube::Mod3;

fn all() -> Vec<Mod3> {
    vec![Mod3::Zero, Mod3::One, Mod3::Two]
}

#[test]
fn addition_table() {
    assert_eq!(Mod3::One + Mod3::One, Mod3::Two);
    assert_eq!(Mod3::Two + Mod3::Two, Mod3::One);
    assert_eq!(Mod3::One + Mod3::Two, Mod3::Zero);
    assert_eq!(Mod3::Two + Mod3::One, Mod3::Zero);
    for x in all() {
        assert_eq!(Mod3::Zero + x, x);
        assert_eq!(x + Mod3::Zero, x);
    }
}

#[test]
fn ring_laws_on_every_element() {
    for a in all() {
        assert_eq!(a + a + a, Mod3::Zero);
        assert_eq!(Mod3::One * a, a);
        assert_eq!(a + a.add_inv(), Mod3::Zero);
        for b in all() {
            assert_eq!(a + b, b + a);
            assert_eq!(a * b, b * a);
            assert_eq!((a + b) - b, a);
            for c in all() {
                assert_eq!((a + b) + c, a + (b + c));
                assert_eq!((a * b) * c, a * (b * c));
                assert_eq!(a * (b + c), a * b + a * c);
            }
        }
    }
}

#[test]
fn subtraction_and_multiplication_tables() {
    assert_eq!(Mod3::Zero - Mod3::One, Mod3::Two);
    assert_eq!(Mod3::One - Mod3::Two, Mod3::Two);
    assert_eq!(Mod3::Two - Mod3::One, Mod3::One);
    assert_eq!(Mod3::Two - Mod3::Zero, Mod3::Two);
    assert_eq!(Mod3::Two * Mod3::Two, Mod3::One);
    assert_eq!(Mod3::Two * Mod3::Zero, Mod3::Zero);
    assert_eq!(Mod3::One * Mod3::Two, Mod3::Two);
}

#[test]
fn inverses_and_division() {
    assert_eq!(Mod3::Zero.add_inv(), Mod3::Zero);
    assert_eq!(Mod3::One.add_inv(), Mod3::Two);
    assert_eq!(Mod3::Two.add_inv(), Mod3::One);
    assert_eq!(Mod3::One.mul_inv(), Mod3::One);
    assert_eq!(Mod3::Two.mul_inv(), Mod3::Two);
    assert_eq!(Mod3::One / Mod3::Two, Mod3::Two);
    assert_eq!(Mod3::Two / Mod3::Two, Mod3::One);
    assert_eq!(Mod3::Zero / Mod3::One, Mod3::Zero);
}

#[test]
fn compound_assignment() {
    let mut x = Mod3::One;
    x.add_assign(Mod3::One);
    assert_eq!(x, Mod3::Two);
    x.mul_assign(Mod3::Two);
    assert_eq!(x, Mod3::One);
    x.sub_assign(Mod3::Two);
    assert_eq!(x, Mod3::Two);
    x.div_assign(Mod3::Two);
    assert_eq!(x, Mod3::One);
    x.set_zero();
    assert!(x.is_zero());
    x.set_one();
    assert!(x.is_one());
    assert!(!Mod3::Two.is_zero());
    assert_eq!(Mod3::zero(), Mod3::Zero);
    assert_eq!(Mod3::one(), Mod3::One);
}

#[test]
fn conversions_with_integers() {
    assert_eq!(Mod3::from(0usize), Mod3::Zero);
    assert_eq!(Mod3::from(7usize), Mod3::One);
    assert_eq!(Mod3::from(11usize), Mod3::Two);
    assert_eq!(Mod3::from_usize(usize::MAX), Mod3::Zero);
    assert_eq!(usize::from(Mod3::Two), 2);
    assert_eq!(Mod3::One.to_usize(), 1);
    for n in 0..30usize {
        assert_eq!(usize::from(Mod3::from(n)), n % 3);
    }
}

#[test]
fn parsing_in_a_radix() {
    assert_eq!(Mod3::from_str_radix("11", 10), Ok(Mod3::Two));
    assert_eq!(Mod3::from_str_radix("11", 2), Ok(Mod3::Zero));
    assert_eq!(Mod3::from_str_radix("ff", 16), Ok(Mod3::Zero));
    assert_eq!(Mod3::from_str_radix("7", 10), Ok(Mod3::One));
    assert!(Mod3::from_str_radix("x", 10).is_err());
    assert!(Mod3::from_str_radix("", 10).is_err());
    assert!(Mod3::from_str_radix("-1", 10).is_err());
}

#[test]
fn labels() {
    assert_eq!(Mod3::Zero.label(), "1  ");
    assert_eq!(Mod3::One.label(), "w  ");
    assert_eq!(Mod3::Two.label(), "w^2");
}
