use wpkpp::bits::unpack;
use wpkpp::error::Error;
use wpkpp::task::{Task, ECC_MOD};
use wpkpp::util::mod_inv;

fn in_out(task: Task, tc: i8, seed: &str) -> (wpkpp::bits::Bits, wpkpp::bits::Bits) {
    task.load_tc(tc, seed).unwrap()
}

#[test]
fn xor_reserved_cases_use_the_truth_table() {
    let expected = [(false, false), (true, false), (false, true), (true, true)];
    for tc in 0..4i8 {
        let (input, output) = in_out(Task::ZeroXor, tc, "NOSEED");
        assert_eq!(input.len(), 2);
        assert_eq!(output.len(), 1);
        let (a, b) = expected[tc as usize];
        assert_eq!(input.get(0), a);
        assert_eq!(input.get(1), b);
        assert_eq!(output.get(0), a != b);
    }
}

#[test]
fn xor_output_is_xor_on_drawn_cases_too() {
    for tc in 4..40i8 {
        let (input, output) = in_out(Task::ZeroXor, tc, "NOSEED");
        assert_eq!(output.get(0), input.get(0) != input.get(1));
    }
}

#[test]
fn add16_case_zero_is_all_zero() {
    // Inputs (0, 0), expected output 0 across 17 bits.
    let (input, output) = in_out(Task::TwoAdd16, 0, "NOSEED");
    assert_eq!(input.len(), 32);
    assert_eq!(output.len(), 17);
    for k in 0..32 {
        assert_eq!(input.get(k), false);
    }
    for k in 0..17 {
        assert_eq!(output.get(k), false);
    }
}

#[test]
fn add16_all_ones_carries_into_bit_seventeen() {
    // Inputs (0xFFFF, 0xFFFF), expected output 0x1FFFE across 17 bits.
    let (input, output) = in_out(Task::TwoAdd16, 12, "NOSEED");
    for k in 0..32 {
        assert_eq!(input.get(k), true);
    }
    assert_eq!(output.len(), 17);
    assert_eq!(output.get(0), false);
    for k in 1..17 {
        assert_eq!(output.get(k), true);
    }
}

#[test]
fn generator_is_deterministic_per_triple() {
    for tc in [0i8, 3, 7, 13, 50, 99] {
        let (in1, out1) = in_out(Task::FiveMul16Mod, tc, "somekey");
        let (in2, out2) = in_out(Task::FiveMul16Mod, tc, "somekey");
        assert_eq!(in1.len(), in2.len());
        assert_eq!(out1.len(), out2.len());
        for k in 0..in1.len() {
            assert_eq!(in1.get(k), in2.get(k));
        }
        for k in 0..out1.len() {
            assert_eq!(out1.get(k), out2.get(k));
        }
    }
}

#[test]
fn changing_the_seed_changes_a_drawn_case() {
    // Index 50 is past every task's reserved range, so its operands come
    // from the seeded source.
    let (in1, _) = in_out(Task::TwoAdd16, 50, "seed one");
    let (in2, _) = in_out(Task::TwoAdd16, 50, "seed two");
    let mut same = true;
    for k in 0..in1.len() {
        if in1.get(k) != in2.get(k) {
            same = false;
        }
    }
    assert!(!same);
}

#[test]
fn inverse_task_outputs_modular_inverses() {
    let widths = vec![16u64];
    for tc in 0..30i8 {
        let (input, output) = in_out(Task::FiveAInv16Mod, tc, "NOSEED");
        let a = unpack(&input, &widths)[0];
        let b = unpack(&output, &widths)[0];
        assert!(1 <= a && a < ECC_MOD);
        assert_eq!((a * b) % ECC_MOD, 1);
    }
}

#[test]
fn mod_inv_matches_known_inverses() {
    assert_eq!(mod_inv(2, ECC_MOD), (ECC_MOD + 1) / 2);
    assert_eq!((3 * mod_inv(3, ECC_MOD)) % ECC_MOD, 1);
    assert_eq!(mod_inv(1, ECC_MOD), 1);
    assert_eq!(mod_inv(ECC_MOD - 1, ECC_MOD), ECC_MOD - 1);
    // A small handmade modulus: 3 * 5 = 15 = 2 * 7 + 1.
    assert_eq!(mod_inv(3, 7), 5);
}

#[test]
fn subtraction_wraps_modulo_two_to_sixteen() {
    // Case (0, 1) of the unordered subtraction task: 0 - 1 wraps.
    let widths = vec![16u64];
    let (_, output) = in_out(Task::TwoBSub16, 2, "NOSEED");
    assert_eq!(unpack(&output, &widths)[0], 0xffff);
}

#[test]
fn modular_tasks_reduce_by_the_modulus() {
    let widths = vec![16u64];
    // (ECC_MOD - 1) + 1 reduces to zero.
    let (_, output) = in_out(Task::FourAdd16Mod, 6, "NOSEED");
    assert_eq!(unpack(&output, &widths)[0], 0);
    // 0 - (ECC_MOD - 1) reduces to 1.
    let (_, output_sub) = in_out(Task::FourASub16Mod, 8, "NOSEED");
    assert_eq!(unpack(&output_sub, &widths)[0], 1);
    // (ECC_MOD - 1)^2 = 1 mod ECC_MOD.
    let (_, output_mul) = in_out(Task::FiveMul16Mod, 10, "NOSEED");
    assert_eq!(unpack(&output_mul, &widths)[0], 1);
}

#[test]
fn multiplication_widens_into_thirty_two_bits() {
    // Case (0x0aa0, 0x0003) of the plain multiply task.
    let widths = vec![32u64];
    let (_, output) = in_out(Task::ThreeMul16, 4, "NOSEED");
    assert_eq!(output.len(), 32);
    assert_eq!(unpack(&output, &widths)[0], 0x0aa0 * 3);
    // The all-ones square needs the full width.
    let (_, out_max) = in_out(Task::ThreeMul16, 10, "NOSEED");
    assert_eq!(unpack(&out_max, &widths)[0], 0xffff * 0xffff);
}

#[test]
fn task_names_parse_and_unknown_is_refused() {
    assert!(matches!(Task::from_str("0"), Ok(Task::ZeroXor)));
    assert!(matches!(Task::from_str("2a"), Ok(Task::TwoASub16)));
    assert!(matches!(Task::from_str("5a"), Ok(Task::FiveAInv16Mod)));
    assert!(matches!(Task::from_str("8"), Ok(Task::EightSha256)));
    assert!(matches!(Task::from_str("9"), Err(Error::UnknownTask)));
    assert!(matches!(Task::from_str(""), Err(Error::UnknownTask)));
}

#[test]
fn unimplemented_tasks_refuse_case_generation() {
    assert!(matches!(
        Task::EightSha256.load_tc(0, "NOSEED"),
        Err(Error::TaskNotImplemented)
    ));
    assert!(matches!(
        Task::SixPointAdd.load_tc(5, "NOSEED"),
        Err(Error::TaskNotImplemented)
    ));
}

#[test]
fn half_adder_counts_both_bits() {
    let widths = vec![2u64];
    // Case (1, 1): the half adder's sum is 2, needing the carry bit.
    let (_, output) = in_out(Task::OneAdd1, 3, "NOSEED");
    assert_eq!(unpack(&output, &widths)[0], 2);
}
