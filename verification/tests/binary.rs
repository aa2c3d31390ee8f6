use uasat::binary::BinaryAlg;
use uasat::boolean::{Boolean, Trivial};
use uasat::genvec::{GenVec, GenVector, Unit};

#[test]
fn opers() {
    let mut alg = Trivial();
    let v1 = alg.num_lift(3, 13);
    let mut expected: GenVec<Unit> = GenVector::new();
    for _ in 0..3 {
        expected.push(Unit);
    }
    assert_eq!(v1, expected);

    let mut alg = Boolean();
    for a1 in 0..15 {
        let a2 = alg.num_lift(4, a1);
        assert_eq!(a2, alg.num_lift(4, a1 - 16));
        assert_eq!(alg.bit_not(a2.clone()), alg.num_lift(4, !a1));
        assert_eq!(alg.num_neg(a2.clone()), alg.num_lift(4, -a1));
        assert_eq!(alg.concat(vec![a2.clone()]), a2.clone());

        for b1 in 0..15 {
            let b2 = alg.num_lift(4, b1);
            assert_eq!(
                alg.bit_and(a2.clone(), b2.clone()),
                alg.num_lift(4, a1 & b1)
            );
            assert_eq!(alg.bit_or(a2.clone(), b2.clone()), alg.num_lift(4, a1 | b1));
            assert_eq!(
                alg.bit_xor(a2.clone(), b2.clone()),
                alg.num_lift(4, a1 ^ b1)
            );
            assert_eq!(
                alg.bit_equ(a2.clone(), b2.clone()),
                alg.num_lift(4, !a1 ^ b1)
            );
            assert_eq!(
                alg.bit_imp(a2.clone(), b2.clone()),
                alg.num_lift(4, !a1 | b1)
            );

            assert_eq!(
                alg.num_add(a2.clone(), b2.clone()),
                alg.num_lift(4, a1 + b1)
            );
            assert_eq!(
                alg.num_sub(a2.clone(), b2.clone()),
                alg.num_lift(4, a1 - b1)
            );
            assert_eq!(
                alg.num_eq(a2.clone(), b2.clone()),
                alg.bit_lift(&[a1 == b1])
            );
            assert_eq!(
                alg.num_ne(a2.clone(), b2.clone()),
                alg.bit_lift(&[a1 != b1])
            );
            assert_eq!(
                alg.num_le(a2.clone(), b2.clone()),
                alg.bit_lift(&[a1 <= b1])
            );
            assert_eq!(alg.num_lt(a2.clone(), b2.clone()), alg.bit_lift(&[a1 < b1]));

            assert_eq!(
                alg.concat(vec![a2.clone(), b2.clone()]),
                alg.num_lift(8, a1 + 16 * b1)
            );
        }
    }
}

#[test]
fn bit_folds() {
    let mut alg = Boolean();
    let v = alg.bit_lift(&[true, true, false]);
    assert_eq!(alg.bit_any(v.clone()), alg.bit_lift(&[true]));
    assert_eq!(alg.bit_all(v.clone()), alg.bit_lift(&[false]));
    let w = alg.bit_lift(&[true, true]);
    assert_eq!(alg.bit_all(w), alg.bit_lift(&[true]));
    let empty = alg.bit_lift(&[]);
    assert_eq!(alg.bit_all(empty.clone()), alg.bit_lift(&[true]));
    assert_eq!(alg.bit_any(empty), alg.bit_lift(&[false]));
}

#[test]
fn splits_of_numbers() {
    let mut alg = Boolean();
    let v = alg.num_lift(8, 0x5a);
    let parts = alg.split(v, 4);
    assert_eq!(parts.len(), 2);
    assert_eq!(parts[0], alg.num_lift(4, 0xa));
    assert_eq!(parts[1], alg.num_lift(4, 0x5));
}
