//! The two fields against the arithmetic that they stand for.

use p3_field::extension::BinomialExtensionField;
use p3_field::{
    BasedVectorSpace, Field as P3Field, PrimeCharacteristicRing, PrimeField32 as P3PrimeField32,
};
use p3_koala_bear::KoalaBear as P3KoalaBear;
use rand::rngs::StdRng;
use rand::{Rng, SeedableRng};
use whirlaway::field::{Algebra, ExtensionField, Field, PrimeField32, Ring};
use whirlaway::koala_bear::{KoalaBear, KOALA_BEAR_ORDER};
use whirlaway::octic::OcticExtension;
use whirlaway::packed::Packed;

type P3Octic = BinomialExtensionField<P3KoalaBear, 8>;

const ORDER: u32 = 0x7f00_0001;

fn octic(coefficients: [u32; 8]) -> OcticExtension {
    <OcticExtension as ExtensionField<KoalaBear>>::from_basis_coefficients(
        &coefficients.map(KoalaBear::new),
    )
}

fn coefficients(element: OcticExtension) -> [u32; 8] {
    std::array::from_fn(|i| {
        <OcticExtension as ExtensionField<KoalaBear>>::basis_coefficient(element, i)
            .as_canonical_u32()
    })
}

fn p3_octic(coefficients: [u32; 8]) -> P3Octic {
    P3Octic::from_basis_coefficients_fn(|i| P3KoalaBear::new(coefficients[i]))
}

fn p3_coefficients(element: P3Octic) -> [u32; 8] {
    let slice: &[P3KoalaBear] = element.as_basis_coefficients_slice();
    std::array::from_fn(|i| slice[i].as_canonical_u32())
}

#[test]
fn koala_bear_residues_are_reduced() {
    assert_eq!(KOALA_BEAR_ORDER, ORDER);
    assert_eq!(<KoalaBear as PrimeField32>::order(), ORDER);
    assert_eq!(KoalaBear::new(ORDER).as_canonical_u32(), 0);
    assert_eq!(KoalaBear::new(ORDER + 5).as_canonical_u32(), 5);
    assert_eq!(KoalaBear::new(u32::MAX).as_canonical_u32(), u32::MAX - 2 * ORDER);
    assert_eq!(<KoalaBear as PrimeField32>::from_u32(7).canonical_u32(), 7);
    assert_eq!(KoalaBear::from_usize(ORDER as usize + 3).as_canonical_u32(), 3);
    assert!(KoalaBear::new(ORDER).is_zero());
    assert!(!KoalaBear::new(1).is_zero());
}

#[test]
fn koala_bear_computes_modulo_the_order() {
    let a = KoalaBear::new(ORDER - 1);
    let b = KoalaBear::new(3);
    assert_eq!(a.plus(b).as_canonical_u32(), 2);
    assert_eq!(b.minus(a).as_canonical_u32(), 4);
    assert_eq!(a.times(b).as_canonical_u32(), ORDER - 3);
    assert_eq!(b.negated().as_canonical_u32(), ORDER - 3);
    assert_eq!(KoalaBear::zero().negated().as_canonical_u32(), 0);
    assert_eq!(KoalaBear::one().as_canonical_u32(), 1);
}

#[test]
fn koala_bear_inverses_are_inverses() {
    assert_eq!(KoalaBear::zero().try_inverse(), None);
    let two = KoalaBear::new(2);
    assert_eq!(two.try_inverse().map(KoalaBear::as_canonical_u32), Some((ORDER + 1) / 2));
    let mut rng = StdRng::seed_from_u64(7);
    for _ in 0..20 {
        let a = KoalaBear::new(rng.random_range(1..ORDER));
        let inverse = a.try_inverse().expect("not zero");
        assert_eq!(a.times(inverse), KoalaBear::one());
        assert_eq!(
            inverse.as_canonical_u32(),
            P3KoalaBear::new(a.as_canonical_u32()).inverse().as_canonical_u32()
        );
    }
}

#[test]
fn octic_generator_has_eighth_power_three() {
    let x = octic([0, 1, 0, 0, 0, 0, 0, 0]);
    let mut power = OcticExtension::one();
    for _ in 0..8 {
        power = power.times(x);
    }
    assert_eq!(coefficients(power), [3, 0, 0, 0, 0, 0, 0, 0]);
}

#[test]
fn octic_arithmetic_agrees_with_binomial_extension() {
    let mut rng = StdRng::seed_from_u64(11);
    for _ in 0..20 {
        let u: [u32; 8] = std::array::from_fn(|_| rng.random_range(0..ORDER));
        let v: [u32; 8] = std::array::from_fn(|_| rng.random_range(0..ORDER));
        let (a, b) = (octic(u), octic(v));
        let (p, q) = (p3_octic(u), p3_octic(v));
        assert_eq!(coefficients(a.plus(b)), p3_coefficients(p + q));
        assert_eq!(coefficients(a.minus(b)), p3_coefficients(p - q));
        assert_eq!(coefficients(a.negated()), p3_coefficients(-p));
        assert_eq!(coefficients(a.times(b)), p3_coefficients(p * q));
        let inverse = a.try_inverse().expect("not zero");
        assert_eq!(coefficients(inverse), p3_coefficients(p.inverse()));
        assert_eq!(a.times(inverse), OcticExtension::one());
    }
    assert_eq!(OcticExtension::zero().try_inverse(), None);
    assert!(octic([ORDER; 8]).is_zero());
    assert!(!octic([0, 0, 0, 0, 0, 0, 0, 1]).is_zero());
    assert_eq!(
        coefficients(OcticExtension::from_usize(9)),
        p3_coefficients(P3Octic::from_usize(9))
    );
}

#[test]
fn base_field_embeds_into_octic_extension() {
    let a = <OcticExtension as Algebra<KoalaBear>>::embed(KoalaBear::new(5));
    assert_eq!(coefficients(a), [5, 0, 0, 0, 0, 0, 0, 0]);
    assert_eq!(<OcticExtension as ExtensionField<KoalaBear>>::dimension(), 8);
    assert_eq!(<KoalaBear as ExtensionField<KoalaBear>>::dimension(), 1);
    let b = octic([1, 2, 3, 4, 5, 6, 7, 8]);
    assert_eq!(coefficients(b.times(a)), [5, 10, 15, 20, 25, 30, 35, 40]);
}

#[test]
fn packed_lanes_compute_alone() {
    let a = Packed::<KoalaBear, 3>::from_lanes([1, 2, 3].map(KoalaBear::new));
    let b = Packed::<KoalaBear, 3>::from_lanes([10, 20, 30].map(KoalaBear::new));
    assert_eq!(a.plus(b).as_slice(), &[11, 22, 33].map(KoalaBear::new));
    assert_eq!(b.minus(a).as_slice(), &[9, 18, 27].map(KoalaBear::new));
    assert_eq!(a.times(b).as_slice(), &[10, 40, 90].map(KoalaBear::new));
    assert_eq!(a.negated().extract(2), KoalaBear::new(ORDER - 3));
    let values = [4, 5, 6, 7, 8].map(KoalaBear::new);
    assert_eq!(Packed::<KoalaBear, 3>::pack(&values, 2).as_slice(), &values[2..5]);
    let wide: Packed<OcticExtension, 3> = a.widen();
    assert_eq!(coefficients(wide.extract(1)), [2, 0, 0, 0, 0, 0, 0, 0]);
    assert_eq!(Packed::<KoalaBear, 3>::broadcast(KoalaBear::new(9)).extract(0), KoalaBear::new(9));
}
