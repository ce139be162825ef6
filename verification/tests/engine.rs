use wpkpp::vm::{Instruction, Vm, stream_opcount};

#[test]
fn empty_program_halts_immediately() {
    let mut vm = Vm::new(Vec::new());
    assert!(vm.halted);
    let stats = vm.run();
    assert_eq!(stats.runtime, 0);
    assert_eq!(stats.memory, 1);
    assert_eq!(vm.runtime, 0);
    assert!(!vm.register);
}

#[test]
fn load_then_inv_clears_preloaded_bit() {
    // A tape preloaded with a single set bit at the pointer: after Load
    // and Inv, the register holds true and the bit is cleared.
    let mut vm = Vm::new(vec![Instruction::Load, Instruction::Inv]);
    vm.memory.set(0, true);
    let stats = vm.run();
    assert!(vm.register);
    assert_eq!(vm.memory.get(0), false);
    assert_eq!(stats.runtime, 2);
    assert_eq!(stats.memory, 1);
}

#[test]
fn cdec_is_gated_by_register_but_always_charged() {
    // Register stays false: the pointer must not move, yet the cost is
    // charged in full.
    let mut vm = Vm::new(vec![Instruction::Cdec(5)]);
    let stats = vm.run();
    assert_eq!(vm.memory_pointer.ptr, 0);
    assert_eq!(vm.memory_pointer.ptr_i, 0);
    assert_eq!(stats.runtime, 5);
    assert_eq!(stats.memory, 1);

    // Register set: the pointer moves left, wrapping physically.
    let mut vm2 = Vm::new(vec![Instruction::Inv, Instruction::Load, Instruction::Cdec(5)]);
    let stats2 = vm2.run();
    assert_eq!(vm2.memory_pointer.ptr, 0u32.wrapping_sub(5));
    assert_eq!(vm2.memory_pointer.ptr_i, -5);
    assert_eq!(stats2.runtime, 7);
    assert_eq!(stats2.memory, 6);
}

#[test]
fn physical_pointer_wraps_logical_does_not() {
    let mut vm = Vm::new(vec![Instruction::Inc(0xffff_ffff), Instruction::Inc(1)]);
    let stats = vm.run();
    assert_eq!(vm.memory_pointer.ptr, 0);
    assert_eq!(vm.memory_pointer.ptr_i, 0x1_0000_0000_i64);
    // The excursion span is capped at the tape capacity.
    assert_eq!(stats.memory, 0x1_0000_0000_i64);
    assert_eq!(stats.runtime, 0x1_0000_0000_i64);
}

#[test]
fn reset_clears_state_and_keeps_program() {
    let mut vm = Vm::new(vec![Instruction::Inc(3), Instruction::Inv]);
    let _ = vm.run();
    assert!(vm.halted);
    assert_eq!(vm.memory.get(3), true);
    vm.reset();
    assert!(!vm.halted);
    assert_eq!(vm.instruction_pointer, 0);
    assert_eq!(vm.runtime, 0);
    assert_eq!(vm.memory.get(3), false);
    let stats = vm.run();
    assert_eq!(stats.runtime, 4);
    assert_eq!(vm.memory.get(3), true);
}

#[test]
fn opcount_sums_magnitudes_and_counts() {
    let prog = vec![
        Instruction::Inc(7),
        Instruction::Cdec(3),
        Instruction::Load,
        Instruction::Inv,
        Instruction::Inc(2),
    ];
    assert_eq!(stream_opcount(&prog), Some((9, 3, 1, 1)));
    let vm = Vm::new(prog);
    assert_eq!(vm.opcount(), (9, 3, 1, 1));
}

#[test]
fn serializers_render_each_instruction() {
    assert_eq!(Instruction::Inc(1).to_wpk_string(), "INC\n");
    assert_eq!(Instruction::Inc(7).to_wpk_string(), "INC 7\n");
    assert_eq!(Instruction::Cdec(1).to_wpk_string(), "CDEC\n");
    assert_eq!(Instruction::Cdec(12).to_wpk_string(), "CDEC 12\n");
    assert_eq!(Instruction::Load.to_wpk_string(), "LOAD\n");
    assert_eq!(Instruction::Inv.to_wpk_string(), "INV\n");
    assert_eq!(Instruction::Inc(1).to_wpkm_string(), ">");
    assert_eq!(Instruction::Inc(7).to_wpkm_string(), "7>");
    assert_eq!(Instruction::Cdec(1).to_wpkm_string(), "<");
    assert_eq!(Instruction::Cdec(3).to_wpkm_string(), "3<");
    assert_eq!(Instruction::Load.to_wpkm_string(), "?");
    assert_eq!(Instruction::Inv.to_wpkm_string(), "!");
}
