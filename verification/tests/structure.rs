use eqn::coset::{Modulo, QuotientMul, QuotientOp};
use eqn::dihedral::{Compose, Rotations, Symmetry};
use eqn::integer::Z;
use eqn::op::{BinaryOperator, Identity, Inverse};
use eqn::operator_impl::ZAdd;
use eqn::quotient::{EqClass, Equivalence};
use eqn::ring::{Integers, Ring, SemiRing};
use eqn::structure::{
    Algebra, AllIntegers, EvenIntegers, Ideal, IntegerAlgebra, IntegerModule, Module,
    NonnegativeIntegers, NormalSubgroup, Submodule, Submonoid, Subset, WholeRing, ZeroIdeal,
};

fn z(v: i64) -> Z {
    Z::from_i64(v)
}

#[test]
fn scalars_embed_into_an_algebra_by_scaling_one() {
    assert_eq!(IntegerAlgebra::from_scalar(z(7)), z(7));
}

#[test]
fn integer_module_exposes_its_structure_and_scalar_action() {
    let scalar = z(-3);
    let value = z(4);

    assert_eq!(ZAdd::identity(), z(0));
    assert_eq!(ZAdd::apply(value.clone(), z(5)), z(9));
    assert_eq!(ZAdd::inverse(value.clone()), z(-4));
    assert_eq!(IntegerModule::scale(scalar, value), z(-12));
}

#[test]
fn integers_satisfy_the_module_laws() {
    let scalars = [-2, -1, 0, 1, 3];
    let values = [-3, -1, 0, 2, 4];

    for &r in &scalars {
        for &s in &scalars {
            for &x in &values {
                assert_eq!(
                    IntegerModule::scale(Integers::add(z(r), z(s)), z(x)),
                    ZAdd::apply(
                        IntegerModule::scale(z(r), z(x)),
                        IntegerModule::scale(z(s), z(x))
                    )
                );
                assert_eq!(
                    IntegerModule::scale(Integers::multiply(z(r), z(s)), z(x)),
                    IntegerModule::scale(z(r), IntegerModule::scale(z(s), z(x)))
                );
            }
        }

        for &x in &values {
            for &y in &values {
                assert_eq!(
                    IntegerModule::scale(z(r), ZAdd::apply(z(x), z(y))),
                    ZAdd::apply(
                        IntegerModule::scale(z(r), z(x)),
                        IntegerModule::scale(z(r), z(y))
                    )
                );
            }

            assert_eq!(IntegerModule::scale(Integers::one(), z(x)), z(x));
        }
    }
}

#[test]
fn even_integers_form_a_submodule() {
    assert!(<EvenIntegers as Submodule>::contains(&ZAdd::identity()));
    for scalar in [-3, 0, 4] {
        for value in [-8, -2, 0, 6] {
            assert!(<EvenIntegers as Submodule>::contains(&IntegerModule::scale(
                z(scalar),
                z(value)
            )));
        }
    }
}

#[test]
fn membership_and_properness() {
    assert!(<EvenIntegers as Subset>::contains(&z(0)));
    assert!(<EvenIntegers as Subset>::contains(&z(6)));
    assert!(!<EvenIntegers as Subset>::contains(&z(3)));
    assert!(EvenIntegers::is_proper());
    assert!(!WholeRing::is_proper());
}

#[test]
fn even_integers_satisfy_the_ideal_laws() {
    let ideal_elements = [-6, -2, 0, 4, 8];
    let ring_elements = [-3, -1, 0, 2, 5];

    for &lhs in &ideal_elements {
        for &rhs in &ideal_elements {
            assert!(<EvenIntegers as Subset>::contains(&Integers::add(
                z(lhs),
                Integers::negate(z(rhs))
            )));
        }

        for &ring_element in &ring_elements {
            assert!(<EvenIntegers as Subset>::contains(&Integers::multiply(
                z(ring_element),
                z(lhs)
            )));
            assert!(<EvenIntegers as Subset>::contains(&Integers::multiply(
                z(lhs),
                z(ring_element)
            )));
        }
    }
}

#[test]
fn nonnegative_integers_form_a_subsemiring() {
    assert!(NonnegativeIntegers::contains(&Integers::zero()));
    assert!(NonnegativeIntegers::contains(&Integers::one()));

    for lhs in [0, 1, 4, 9] {
        for rhs in [0, 2, 5, 8] {
            assert!(NonnegativeIntegers::contains(&Integers::add(z(lhs), z(rhs))));
            assert!(NonnegativeIntegers::contains(&Integers::multiply(
                z(lhs),
                z(rhs)
            )));
        }
    }
    assert!(!NonnegativeIntegers::contains(&z(-1)));
}

#[test]
fn integers_form_a_subring() {
    for value in [-10, -1, 0, 1, 10] {
        assert!(AllIntegers::contains(&Integers::negate(z(value))));
    }
}

fn symmetry(rotation: u8, reflected: bool) -> Symmetry {
    Symmetry::new(rotation, reflected)
}

fn symmetries() -> [Symmetry; 6] {
    [
        symmetry(0, false),
        symmetry(1, false),
        symmetry(2, false),
        symmetry(0, true),
        symmetry(1, true),
        symmetry(2, true),
    ]
}

fn modulo_rotations(rotation: u8, reflected: bool) -> EqClass<Symmetry, Rotations> {
    EqClass::new(symmetry(rotation, reflected))
}

#[test]
fn triangle_symmetries_satisfy_the_group_laws() {
    for a in symmetries() {
        assert_eq!(Compose::apply(a, Compose::identity()), a);
        assert_eq!(Compose::apply(Compose::identity(), a), a);
        assert_eq!(Compose::apply(Compose::inverse(a), a), Compose::identity());
        assert_eq!(Compose::apply(a, Compose::inverse(a)), Compose::identity());

        for b in symmetries() {
            for c in symmetries() {
                assert_eq!(
                    Compose::apply(Compose::apply(a, b), c),
                    Compose::apply(a, Compose::apply(b, c))
                );
            }
        }
    }
}

#[test]
fn triangle_symmetries_do_not_commute() {
    let r = symmetry(1, false);
    let s = symmetry(0, true);
    assert_ne!(Compose::apply(r, s), Compose::apply(s, r));
}

#[test]
fn rotations_are_normal_in_the_triangle_symmetry_group() {
    let rotations = [symmetry(0, false), symmetry(1, false), symmetry(2, false)];

    for g in symmetries() {
        for n in rotations {
            let conjugate = Compose::apply(Compose::apply(g, n), Compose::inverse(g));
            assert!(Rotations::contains(&conjugate));
        }
    }
}

#[test]
fn coset_representatives_agree_with_the_left_coset_relation() {
    for a in symmetries() {
        for b in symmetries() {
            assert_eq!(
                EqClass::<Symmetry, Rotations>::new(a) == EqClass::new(b),
                Modulo::<Rotations>::equivalent(&a, &b)
            );
        }
    }
}

#[test]
fn quotient_of_a_noncommutative_group_is_well_defined() {
    assert_eq!(modulo_rotations(0, false), modulo_rotations(2, false));
    assert_eq!(modulo_rotations(0, true), modulo_rotations(2, true));
    assert_ne!(modulo_rotations(0, false), modulo_rotations(0, true));

    let product =
        Modulo::<Rotations>::applied(modulo_rotations(0, true), modulo_rotations(0, true));
    let same_product =
        Modulo::<Rotations>::applied(modulo_rotations(1, true), modulo_rotations(2, true));

    assert_eq!(product, Modulo::<Rotations>::identity());
    assert_eq!(product, same_product);
    assert_eq!(
        Modulo::<Rotations>::inversed(modulo_rotations(1, true)),
        modulo_rotations(0, true)
    );
    assert_eq!(modulo_rotations(2, true).into_representative(), symmetry(0, true));
}

fn modulo_two(value: i64) -> EqClass<Z, EvenIntegers> {
    EqClass::new(z(value))
}

#[test]
fn equality_is_modulo_the_ideal() {
    assert_eq!(modulo_two(0), modulo_two(2));
    assert_eq!(modulo_two(1), modulo_two(3));
    assert_ne!(modulo_two(0), modulo_two(1));

    let value = modulo_two(5);
    assert_eq!(value.representative(), &z(1));
    assert_eq!(value.into_representative(), z(1));
    assert_eq!(modulo_two(-3).into_representative(), z(1));
}

#[test]
fn integers_modulo_two_add_to_zero_and_multiply_to_one() {
    assert_eq!(
        Modulo::<EvenIntegers>::applied(modulo_two(1), modulo_two(1)),
        modulo_two(0)
    );
    assert_eq!(
        Modulo::<EvenIntegers>::multiplied(modulo_two(1), modulo_two(1)),
        modulo_two(1)
    );
    assert_eq!(Modulo::<EvenIntegers>::inversed(modulo_two(1)), modulo_two(1));
    assert_eq!(Modulo::<EvenIntegers>::one(), modulo_two(3));
    assert_eq!(Modulo::<EvenIntegers>::identity(), modulo_two(-2));
}

#[test]
fn quotient_operations_do_not_depend_on_representatives() {
    let sum = Modulo::<EvenIntegers>::applied(modulo_two(1), modulo_two(2));
    let same_sum = Modulo::<EvenIntegers>::applied(modulo_two(3), modulo_two(4));
    assert_eq!(sum, same_sum);

    let product = Modulo::<EvenIntegers>::multiplied(modulo_two(1), modulo_two(2));
    let same_product = Modulo::<EvenIntegers>::multiplied(modulo_two(3), modulo_two(4));
    assert_eq!(product, same_product);
}

#[test]
fn the_coset_relation_of_the_even_integers_is_parity() {
    for a in -3..=3 {
        for b in -3..=3 {
            assert_eq!(
                Modulo::<EvenIntegers>::equivalent(&z(a), &z(b)),
                (a - b) % 2 == 0
            );
        }
    }
}

#[test]
fn quotient_operators_act_on_classes() {
    let product = QuotientOp::<Rotations>::apply(modulo_rotations(1, true), modulo_rotations(2, false));
    assert_eq!(product, modulo_rotations(0, true));
    assert_eq!(QuotientOp::<EvenIntegers>::apply(modulo_two(3), modulo_two(5)), modulo_two(0));
    assert_eq!(QuotientMul::<EvenIntegers>::apply(modulo_two(3), modulo_two(5)), modulo_two(1));
    assert_eq!(QuotientMul::<EvenIntegers>::apply(modulo_two(3), modulo_two(4)), modulo_two(0));
    assert_eq!(QuotientOp::<EvenIntegers>::symbol(), "+");
    assert_eq!(QuotientMul::<EvenIntegers>::symbol(), "*");
}

#[test]
fn coset_equality_is_an_equivalence_relation() {
    for a in -3..=3 {
        assert_eq!(modulo_two(a), modulo_two(a));

        for b in -3..=3 {
            assert_eq!(modulo_two(a) == modulo_two(b), modulo_two(b) == modulo_two(a));

            for c in -3..=3 {
                if modulo_two(a) == modulo_two(b) && modulo_two(b) == modulo_two(c) {
                    assert_eq!(modulo_two(a), modulo_two(c));
                }
            }
        }
    }
}

#[test]
fn subgroups_of_abelian_groups_are_normal() {
    fn assert_normal<N: NormalSubgroup>()
    where
        <N as Submonoid>::Parent: Inverse,
    {
    }

    assert_normal::<EvenIntegers>();
}

#[test]
fn quotient_operation_does_not_depend_on_representatives() {
    let product = QuotientOp::<EvenIntegers>::apply(modulo_two(1), modulo_two(2));
    let same_product = QuotientOp::<EvenIntegers>::apply(modulo_two(3), modulo_two(4));

    assert_eq!(product, same_product);
    assert_eq!(modulo_two(5).representative(), &z(1));
    assert_eq!(modulo_two(5).into_representative(), z(1));
}

#[test]
fn quotient_operator_satisfies_the_group_laws() {
    for a in -2..=2 {
        let value = modulo_two(a);
        let inverse = Modulo::<EvenIntegers>::inversed(value.clone());

        assert_eq!(
            QuotientOp::<EvenIntegers>::apply(value.clone(), Modulo::<EvenIntegers>::identity()),
            value
        );
        assert_eq!(
            QuotientOp::<EvenIntegers>::apply(inverse, value.clone()),
            Modulo::<EvenIntegers>::identity()
        );

        for b in -2..=2 {
            for c in -2..=2 {
                assert_eq!(
                    QuotientOp::<EvenIntegers>::apply(
                        QuotientOp::<EvenIntegers>::apply(modulo_two(a), modulo_two(b)),
                        modulo_two(c)
                    ),
                    QuotientOp::<EvenIntegers>::apply(
                        modulo_two(a),
                        QuotientOp::<EvenIntegers>::apply(modulo_two(b), modulo_two(c))
                    )
                );
            }
        }
    }
}

#[test]
fn quotient_equality_is_an_equivalence_relation() {
    for a in -3..=3 {
        assert_eq!(modulo_two(a), modulo_two(a));

        for b in -3..=3 {
            assert_eq!(modulo_two(a) == modulo_two(b), modulo_two(b) == modulo_two(a));

            for c in -3..=3 {
                if modulo_two(a) == modulo_two(b) && modulo_two(b) == modulo_two(c) {
                    assert_eq!(modulo_two(a), modulo_two(c));
                }
            }
        }
    }
}

fn add_mod_two(a: EqClass<Z, EvenIntegers>, b: EqClass<Z, EvenIntegers>) -> EqClass<Z, EvenIntegers> {
    Modulo::<EvenIntegers>::applied(a, b)
}

fn mul_mod_two(a: EqClass<Z, EvenIntegers>, b: EqClass<Z, EvenIntegers>) -> EqClass<Z, EvenIntegers> {
    Modulo::<EvenIntegers>::multiplied(a, b)
}

#[test]
fn quotient_operators_satisfy_the_ring_laws() {
    let zero = Modulo::<EvenIntegers>::identity;
    let one = Modulo::<EvenIntegers>::one;
    let negate = Modulo::<EvenIntegers>::inversed;
    for a in -2..=2 {
        assert_eq!(add_mod_two(modulo_two(a), zero()), modulo_two(a));
        assert_eq!(add_mod_two(modulo_two(a), negate(modulo_two(a))), zero());
        assert_eq!(mul_mod_two(modulo_two(a), one()), modulo_two(a));

        for b in -2..=2 {
            assert_eq!(
                add_mod_two(modulo_two(a), modulo_two(b)),
                add_mod_two(modulo_two(b), modulo_two(a))
            );
            assert_eq!(
                mul_mod_two(modulo_two(a), modulo_two(b)),
                mul_mod_two(modulo_two(b), modulo_two(a))
            );

            for c in -2..=2 {
                assert_eq!(
                    add_mod_two(add_mod_two(modulo_two(a), modulo_two(b)), modulo_two(c)),
                    add_mod_two(modulo_two(a), add_mod_two(modulo_two(b), modulo_two(c)))
                );
                assert_eq!(
                    mul_mod_two(mul_mod_two(modulo_two(a), modulo_two(b)), modulo_two(c)),
                    mul_mod_two(modulo_two(a), mul_mod_two(modulo_two(b), modulo_two(c)))
                );
                assert_eq!(
                    mul_mod_two(modulo_two(a), add_mod_two(modulo_two(b), modulo_two(c))),
                    add_mod_two(
                        mul_mod_two(modulo_two(a), modulo_two(b)),
                        mul_mod_two(modulo_two(a), modulo_two(c))
                    )
                );
                assert_eq!(
                    mul_mod_two(add_mod_two(modulo_two(a), modulo_two(b)), modulo_two(c)),
                    add_mod_two(
                        mul_mod_two(modulo_two(a), modulo_two(c)),
                        mul_mod_two(modulo_two(b), modulo_two(c))
                    )
                );
            }
        }
    }
}

#[test]
fn residue_classes_agree_with_the_ideal() {
    for a in -3..=3 {
        for b in -3..=3 {
            assert_eq!(
                modulo_two(a) == modulo_two(b),
                Modulo::<EvenIntegers>::equivalent(&z(a), &z(b))
            );
            assert_eq!(
                EqClass::<Z, WholeRing>::new(z(a)) == EqClass::new(z(b)),
                Modulo::<WholeRing>::equivalent(&z(a), &z(b))
            );
            assert_eq!(
                EqClass::<Z, ZeroIdeal>::new(z(a)) == EqClass::new(z(b)),
                Modulo::<ZeroIdeal>::equivalent(&z(a), &z(b))
            );
        }
    }
}

#[test]
fn quotient_by_the_whole_ring_is_the_zero_ring() {
    assert_eq!(Modulo::<WholeRing>::identity(), Modulo::<WholeRing>::one());
}

#[test]
fn quotient_by_zero_preserves_equality() {
    for lhs in -3..=3 {
        for rhs in -3..=3 {
            assert_eq!(
                EqClass::<Z, ZeroIdeal>::new(z(lhs)) == EqClass::new(z(rhs)),
                z(lhs) == z(rhs)
            );
        }
    }
}

#[test]
fn nonnegative_integers_form_a_submonoid() {
    assert!(NonnegativeIntegers::contains(&ZAdd::identity()));

    for lhs in [0, 1, 4, 9] {
        for rhs in [0, 2, 5, 8] {
            assert!(NonnegativeIntegers::contains(&ZAdd::apply(z(lhs), z(rhs))));
        }
    }
}

#[test]
fn classes_are_equal_exactly_when_the_relation_holds() {
    for a in -3..=3i64 {
        for b in -3..=3i64 {
            assert_eq!(
                EqClass::<Z, EvenIntegers>::new(z(a)) == EqClass::new(z(b)),
                (a - b) % 2 == 0
            );
        }
    }
}
