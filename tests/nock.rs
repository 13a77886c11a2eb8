use ares::axis::{edit, raw_slot, slot};
use ares::error::NockError;
use ares::interpreter::{interpret, NockStack};
use ares::semantics::SHAM_TAG;
use ares::noun::{inc, Atom, Noun};

fn a(n: u64) -> Noun {
    Noun::atom(n)
}

fn c(h: Noun, t: Noun) -> Noun {
    Noun::cell(h, t)
}

fn same(x: &Noun, y: &Noun) -> bool {
    x.equals(y)
}

fn no_jets(_name: &Noun, _subject: &Noun) -> Option<Noun> {
    None
}

fn run(subject: Noun, formula: Noun) -> Result<Noun, NockError> {
    let mut stack = NockStack::new();
    let r = interpret(&mut stack, subject, formula, &no_jets, 10_000);
    assert_eq!(stack.depth(), 0);
    r
}

fn limbs_of(x: &Atom) -> Vec<u64> {
    x.limbs().clone()
}

/// [[4 5] [6 14 15]]
fn sample_tree() -> Noun {
    c(c(a(4), a(5)), c(a(6), c(a(14), a(15))))
}

#[test]
fn inc_small_values() {
    assert_eq!(limbs_of(&inc(&Atom::from_u64(0))), vec![1]);
    assert_eq!(limbs_of(&inc(&Atom::from_u64(41))), vec![42]);
}

#[test]
fn inc_largest_inline_value() {
    let x = Atom::from_u64((1u64 << 62) - 1);
    assert_eq!(limbs_of(&inc(&x)), vec![1u64 << 62]);
    let y = Atom::from_u64((1u64 << 63) - 1);
    assert_eq!(limbs_of(&inc(&y)), vec![1u64 << 63]);
}

#[test]
fn inc_carries_into_new_limb() {
    assert_eq!(limbs_of(&inc(&Atom::from_u64(u64::MAX))), vec![0, 1]);
    let x = Atom::from_limbs(vec![u64::MAX, u64::MAX]);
    assert_eq!(limbs_of(&inc(&x)), vec![0, 0, 1]);
}

#[test]
fn inc_carries_within_limbs() {
    let x = Atom::from_limbs(vec![u64::MAX, 7]);
    assert_eq!(limbs_of(&inc(&x)), vec![0, 8]);
    let y = Atom::from_limbs(vec![5, 9]);
    assert_eq!(limbs_of(&inc(&y)), vec![6, 9]);
}

#[test]
fn from_limbs_drops_top_zeros() {
    let x = Atom::from_limbs(vec![3, 0, 0]);
    assert_eq!(limbs_of(&x), vec![3]);
    assert!(Atom::from_limbs(vec![0, 0]).is_zero());
    assert_eq!(Atom::from_u64(9).as_u64(), Some(9));
    assert_eq!(Atom::from_limbs(vec![1, 1]).as_u64(), None);
}

#[test]
fn slot_axis_one_is_whole_noun() {
    let t = sample_tree();
    let r = slot(&t, &Atom::from_u64(1)).unwrap();
    assert!(same(&r, &t));
    let r = slot(&a(17), &Atom::from_u64(1)).unwrap();
    assert!(same(&r, &a(17)));
}

#[test]
fn slot_follows_bits() {
    let t = sample_tree();
    assert!(same(&slot(&t, &Atom::from_u64(2)).unwrap(), &c(a(4), a(5))));
    assert!(same(&slot(&t, &Atom::from_u64(4)).unwrap(), &a(4)));
    assert!(same(&slot(&t, &Atom::from_u64(5)).unwrap(), &a(5)));
    assert!(same(&slot(&t, &Atom::from_u64(6)).unwrap(), &a(6)));
    assert!(same(&slot(&t, &Atom::from_u64(14)).unwrap(), &a(14)));
    assert!(same(&slot(&t, &Atom::from_u64(15)).unwrap(), &a(15)));
    assert!(same(&raw_slot(&t, 7).unwrap(), &c(a(14), a(15))));
}

#[test]
fn slot_through_atom_fails() {
    let t = sample_tree();
    assert_eq!(slot(&t, &Atom::from_u64(8)).err(), Some(NockError::AxisThroughAtom));
    assert_eq!(slot(&a(3), &Atom::from_u64(2)).err(), Some(NockError::AxisThroughAtom));
}

#[test]
fn slot_with_multi_limb_axis() {
    // Axis 2^64 is one followed by sixty-four zeros: sixty-four steps into heads.
    let mut t = a(99);
    for _ in 0..64 {
        t = c(t, a(0));
    }
    let axis = Atom::from_limbs(vec![0, 1]);
    assert!(same(&slot(&t, &axis).unwrap(), &a(99)));
}

#[test]
fn axis_zero_fails_for_every_tree() {
    for t in [a(0), a(5), sample_tree()] {
        assert_eq!(slot(&t, &Atom::from_u64(0)).err(), Some(NockError::ZeroAxis));
        assert_eq!(
            edit(&Atom::from_u64(0), a(1), t).err(),
            Some(NockError::ZeroAxis)
        );
    }
}

#[test]
fn edit_replaces_tail_and_head() {
    let t = sample_tree();
    let e = edit(&Atom::from_u64(6), a(60), t).unwrap();
    let expected = c(c(a(4), a(5)), c(a(60), c(a(14), a(15))));
    assert!(same(&e, &expected));
    let e = edit(&Atom::from_u64(2), a(20), sample_tree()).unwrap();
    let expected = c(a(20), c(a(6), c(a(14), a(15))));
    assert!(same(&e, &expected));
    let e = edit(&Atom::from_u64(1), a(7), sample_tree()).unwrap();
    assert!(same(&e, &a(7)));
}

#[test]
fn edit_then_slot_gives_patch_and_keeps_rest() {
    let e = edit(&Atom::from_u64(14), c(a(1), a(2)), sample_tree()).unwrap();
    assert!(same(&slot(&e, &Atom::from_u64(14)).unwrap(), &c(a(1), a(2))));
    assert!(same(&slot(&e, &Atom::from_u64(15)).unwrap(), &a(15)));
    assert!(same(&slot(&e, &Atom::from_u64(2)).unwrap(), &c(a(4), a(5))));
    assert!(same(&slot(&e, &Atom::from_u64(6)).unwrap(), &a(6)));
}

#[test]
fn edit_through_atom_fails() {
    assert_eq!(
        edit(&Atom::from_u64(4), a(1), c(a(1), a(2))).err(),
        Some(NockError::AxisThroughAtom)
    );
}

#[test]
fn equality_is_structural() {
    assert!(same(&sample_tree(), &sample_tree()));
    assert!(!same(&sample_tree(), &c(a(4), a(5))));
    assert!(!same(&a(1), &c(a(1), a(1))));
    let big = Noun::Atom(Atom::from_limbs(vec![1, 2]));
    assert!(same(&big, &Noun::Atom(Atom::from_limbs(vec![1, 2, 0]))));
    assert!(!same(&big, &Noun::Atom(Atom::from_limbs(vec![1, 3]))));
}

#[test]
fn opcode_zero_is_slot() {
    let r = run(sample_tree(), c(a(0), a(6))).unwrap();
    assert!(same(&r, &slot(&sample_tree(), &Atom::from_u64(6)).unwrap()));
    assert_eq!(run(sample_tree(), c(a(0), a(0))).err(), Some(NockError::ZeroAxis));
    assert_eq!(
        run(sample_tree(), c(a(0), c(a(1), a(1)))).err(),
        Some(NockError::AxisNotAtom)
    );
}

#[test]
fn opcode_one_is_constant() {
    let r = run(a(5), c(a(1), c(a(8), a(9)))).unwrap();
    assert!(same(&r, &c(a(8), a(9))));
}

#[test]
fn cell_formula_builds_cell() {
    // [[1 7] [0 1]] on subject 3 gives [7 3].
    let f = c(c(a(1), a(7)), c(a(0), a(1)));
    assert!(same(&run(a(3), f).unwrap(), &c(a(7), a(3))));
}

#[test]
fn opcode_two_evaluates_computed_formula() {
    // *[42 2 [0 1] [1 4 0 1]] = 43
    let f = c(a(2), c(c(a(0), a(1)), c(a(1), c(a(4), c(a(0), a(1))))));
    assert!(same(&run(a(42), f).unwrap(), &a(43)));
}

#[test]
fn opcode_three_tests_cells() {
    assert!(same(&run(c(a(1), a(2)), c(a(3), c(a(0), a(1)))).unwrap(), &a(0)));
    assert!(same(&run(a(1), c(a(3), c(a(0), a(1)))).unwrap(), &a(1)));
}

#[test]
fn opcode_four_increments() {
    assert!(same(&run(a(41), c(a(4), c(a(0), a(1)))).unwrap(), &a(42)));
    let r = run(a(u64::MAX), c(a(4), c(a(0), a(1)))).unwrap();
    assert!(same(&r, &Noun::Atom(Atom::from_limbs(vec![0, 1]))));
    assert_eq!(
        run(c(a(1), a(2)), c(a(4), c(a(0), a(1)))).err(),
        Some(NockError::IncrementCell)
    );
}

#[test]
fn opcode_five_compares() {
    let f = c(a(5), c(c(a(0), a(2)), c(a(0), a(3))));
    assert!(same(&run(c(a(7), a(7)), f).unwrap(), &a(0)));
    let f = c(a(5), c(c(a(0), a(2)), c(a(0), a(3))));
    assert!(same(&run(c(a(7), a(8)), f).unwrap(), &a(1)));
    let f = c(a(5), c(c(a(0), a(2)), c(a(0), a(3))));
    let s = c(sample_tree(), sample_tree());
    assert!(same(&run(s, f).unwrap(), &a(0)));
}

#[test]
fn opcode_six_branches() {
    let f = |t: u64| c(a(6), c(c(a(1), a(t)), c(c(a(1), a(11)), c(a(1), a(22)))));
    assert!(same(&run(a(0), f(0)).unwrap(), &a(11)));
    assert!(same(&run(a(0), f(1)).unwrap(), &a(22)));
    assert_eq!(run(a(0), f(2)).err(), Some(NockError::BadTest));
    let g = c(a(6), c(c(a(1), c(a(0), a(0))), c(c(a(1), a(11)), c(a(1), a(22)))));
    assert_eq!(run(a(0), g).err(), Some(NockError::BadTest));
}

#[test]
fn opcode_seven_composes() {
    // *[5 7 [4 0 1] [4 0 1]] = 7
    let f = c(a(7), c(c(a(4), c(a(0), a(1))), c(a(4), c(a(0), a(1)))));
    assert!(same(&run(a(5), f).unwrap(), &a(7)));
}

#[test]
fn opcode_eight_pushes() {
    // *[5 8 [1 9] [0 1]] = [9 5]
    let f = c(a(8), c(c(a(1), a(9)), c(a(0), a(1))));
    assert!(same(&run(a(5), f).unwrap(), &c(a(9), a(5))));
}

#[test]
fn opcode_nine_invokes_arm() {
    // Core [arm data] whose arm [4 0 3] increments the data.
    let arm = c(a(4), c(a(0), a(3)));
    let core = c(arm, a(10));
    let f = c(a(9), c(a(2), c(a(1), core)));
    assert!(same(&run(a(0), f).unwrap(), &a(11)));
    let direct = run(c(c(a(4), c(a(0), a(3))), a(10)), c(a(4), c(a(0), a(3)))).unwrap();
    assert!(same(&direct, &a(11)));
}

#[test]
fn opcode_ten_edits() {
    // *[[1 2] 10 [2 [1 7]] [0 1]] = [7 2]
    let f = c(a(10), c(c(a(2), c(a(1), a(7))), c(a(0), a(1))));
    assert!(same(&run(c(a(1), a(2)), f).unwrap(), &c(a(7), a(2))));
}

#[test]
fn opcode_eleven_hints() {
    let f = c(a(11), c(a(3), c(a(0), a(1))));
    assert!(same(&run(a(8), f).unwrap(), &a(8)));
    let f = c(a(11), c(c(a(3), c(a(1), a(0))), c(a(4), c(a(0), a(1)))));
    assert!(same(&run(a(8), f).unwrap(), &a(9)));
}

fn sham_formula(name: u64) -> Noun {
    // [11 [%sham [1 name]] [4 0 1]]: the body increments the subject.
    c(
        a(11),
        c(c(a(SHAM_TAG), c(a(1), a(name))), c(a(4), c(a(0), a(1)))),
    )
}

#[test]
fn jet_short_circuits_body() {
    let jets = |name: &Noun, subject: &Noun| -> Option<Noun> {
        if name.equals(&Noun::atom(77)) {
            Some(Noun::cell(subject.copy(), Noun::atom(1000)))
        } else {
            None
        }
    };
    let mut stack = NockStack::new();
    let r = interpret(&mut stack, a(5), sham_formula(77), &jets, 10_000).unwrap();
    assert!(same(&r, &c(a(5), a(1000))));
    let mut stack = NockStack::new();
    let r = interpret(&mut stack, a(5), sham_formula(78), &jets, 10_000).unwrap();
    assert!(same(&r, &a(6)));
    let r = run(a(5), sham_formula(77)).unwrap();
    assert!(same(&r, &a(6)));
}

#[test]
fn malformed_formulas_fail() {
    assert_eq!(run(a(0), a(3)).err(), Some(NockError::AtomFormula));
    assert_eq!(run(a(0), c(a(12), a(0))).err(), Some(NockError::InvalidOpcode));
    let huge = Noun::Atom(Atom::from_limbs(vec![0, 1]));
    assert_eq!(run(a(0), c(huge, a(0))).err(), Some(NockError::InvalidOpcode));
    assert_eq!(run(a(0), c(a(2), a(0))).err(), Some(NockError::BadArgument));
    assert_eq!(run(a(0), c(a(6), c(a(0), a(1)))).err(), Some(NockError::BadArgument));
    assert_eq!(run(a(0), c(a(10), c(a(2), a(1)))).err(), Some(NockError::BadArgument));
    assert_eq!(run(a(0), c(a(11), a(1))).err(), Some(NockError::BadArgument));
}

#[test]
fn budget_bounds_evaluation() {
    // *[a 2 [0 1] [0 1]] on a = [2 [0 1] [0 1]] runs forever.
    let loop_formula = c(a(2), c(c(a(0), a(1)), c(a(0), a(1))));
    let subject = c(a(2), c(c(a(0), a(1)), c(a(0), a(1))));
    let mut stack = NockStack::new();
    let r = interpret(&mut stack, subject, loop_formula, &no_jets, 500);
    assert_eq!(r.err(), Some(NockError::OutOfSteps));
    assert_eq!(stack.depth(), 0);
    let mut stack = NockStack::new();
    let r = interpret(&mut stack, a(1), c(a(1), a(2)), &no_jets, 0);
    assert_eq!(r.err(), Some(NockError::OutOfSteps));
}

#[test]
fn deep_evaluation_keeps_host_stack_small() {
    // Nested increments a hundred thousand deep.
    let mut f = c(a(0), a(1));
    for _ in 0..100_000 {
        f = c(a(4), f);
    }
    let mut stack = NockStack::new();
    let r = interpret(&mut stack, a(0), f, &no_jets, 10_000_000);
    assert!(same(&r.unwrap(), &a(100_000)));
}

#[test]
fn equality_is_reflexive_and_symmetric() {
    let x = c(a(1), Noun::Atom(Atom::from_limbs(vec![5, 6])));
    let y = c(a(1), Noun::Atom(Atom::from_limbs(vec![5, 6])));
    assert!(same(&x, &x));
    assert!(same(&x, &y) && same(&y, &x));
    let z = c(a(1), a(5));
    assert_eq!(same(&x, &z), same(&z, &x));
}

#[test]
fn over_long_axis_is_refused() {
    let mut limbs = vec![0u64; 0x80_0000];
    limbs[0x7F_FFFF] = 1;
    let axis = Noun::Atom(Atom::from_limbs(limbs));
    assert_eq!(run(a(1), c(a(0), axis)).err(), Some(NockError::AxisTooLong));
}

#[test]
fn opcode_nine_axis_must_be_atom() {
    let f = c(a(9), c(c(a(1), a(1)), c(a(1), c(a(0), a(1)))));
    assert_eq!(run(a(0), f).err(), Some(NockError::AxisNotAtom));
}

#[test]
fn opcode_nine_core_example_gives_forty_two() {
    // *[0 9 3 [1 [41 [4 0 2]]]]: the arm [4 0 2] at axis 3 of core [41 [4 0 2]].
    let core = || c(a(41), c(a(4), c(a(0), a(2))));
    let f = c(a(9), c(a(3), c(a(1), core())));
    assert!(same(&run(a(0), f).unwrap(), &a(42)));
    let direct = run(core(), c(a(4), c(a(0), a(2)))).unwrap();
    assert!(same(&direct, &a(42)));
}

#[test]
fn untaken_branch_is_never_evaluated() {
    // The second branch is a bare atom, which is no formula.
    let f = c(a(6), c(c(a(1), a(0)), c(c(a(1), a(11)), a(99))));
    assert!(same(&run(a(0), f).unwrap(), &a(11)));
}

#[test]
fn jet_skips_invalid_body() {
    let jets = |_name: &Noun, _subject: &Noun| -> Option<Noun> { Some(Noun::atom(7)) };
    let f = c(a(11), c(c(a(SHAM_TAG), c(a(1), a(5))), a(3)));
    let mut stack = NockStack::new();
    let r = interpret(&mut stack, a(0), f, &jets, 100).unwrap();
    assert!(same(&r, &a(7)));
}

#[test]
fn opcode_eight_restores_subject() {
    // *[5 [8 [1 9] [0 1]] [0 1]] = [[9 5] 5]
    let f = c(c(a(8), c(c(a(1), a(9)), c(a(0), a(1)))), c(a(0), a(1)));
    assert!(same(&run(a(5), f).unwrap(), &c(c(a(9), a(5)), a(5))));
}
