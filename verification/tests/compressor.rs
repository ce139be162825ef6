use wpkpp::parse::push_and_compress_instruction;
use wpkpp::vm::{Instruction, Vm};

#[test]
fn fold_across_single_cdec() {
    // Appending Inc(5), then Cdec(3), then Inc(2) to an empty stream
    // yields exactly Inc(7) followed by Cdec(3): the Cdec is kept.
    let mut stream = Vec::new();
    push_and_compress_instruction(&mut stream, Instruction::Inc(5));
    push_and_compress_instruction(&mut stream, Instruction::Cdec(3));
    push_and_compress_instruction(&mut stream, Instruction::Inc(2));
    assert_eq!(stream, vec![Instruction::Inc(7), Instruction::Cdec(3)]);
}

#[test]
fn adjacent_same_kind_merge() {
    let mut stream = Vec::new();
    push_and_compress_instruction(&mut stream, Instruction::Inc(5));
    push_and_compress_instruction(&mut stream, Instruction::Inc(2));
    assert_eq!(stream, vec![Instruction::Inc(7)]);
    push_and_compress_instruction(&mut stream, Instruction::Cdec(1));
    push_and_compress_instruction(&mut stream, Instruction::Cdec(4));
    assert_eq!(stream, vec![Instruction::Inc(7), Instruction::Cdec(5)]);
}

#[test]
fn null_appends_are_discarded() {
    let mut stream = Vec::new();
    push_and_compress_instruction(&mut stream, Instruction::Null);
    assert!(stream.is_empty());
    push_and_compress_instruction(&mut stream, Instruction::Inc(1));
    push_and_compress_instruction(&mut stream, Instruction::Null);
    assert_eq!(stream, vec![Instruction::Inc(1)]);
}

#[test]
fn tape_instruction_blocks_the_gap_fold() {
    // Load reads the tape at the current cell, so displacement arithmetic
    // must not be reordered around it.
    let mut stream = Vec::new();
    push_and_compress_instruction(&mut stream, Instruction::Inc(5));
    push_and_compress_instruction(&mut stream, Instruction::Load);
    push_and_compress_instruction(&mut stream, Instruction::Inc(2));
    assert_eq!(
        stream,
        vec![Instruction::Inc(5), Instruction::Load, Instruction::Inc(2)]
    );
}

#[test]
fn merge_that_would_overflow_appends_instead() {
    let mut stream = Vec::new();
    push_and_compress_instruction(&mut stream, Instruction::Inc(u32::MAX));
    push_and_compress_instruction(&mut stream, Instruction::Inc(1));
    assert_eq!(stream, vec![Instruction::Inc(u32::MAX), Instruction::Inc(1)]);
}

#[test]
fn recompression_is_identity() {
    // Compressing an already-compressed stream leaves it unchanged.
    let mut stream = Vec::new();
    for i in [
        Instruction::Inc(5),
        Instruction::Cdec(3),
        Instruction::Inc(2),
        Instruction::Load,
        Instruction::Inv,
        Instruction::Cdec(9),
    ] {
        push_and_compress_instruction(&mut stream, i);
    }
    let mut again = Vec::new();
    for i in stream.iter() {
        push_and_compress_instruction(&mut again, *i);
    }
    assert_eq!(again, stream);
}

#[test]
fn compressed_stream_runs_like_the_appended_one() {
    // The folded stream must match the append sequence in runtime cost
    // and in every tape effect, here with the register gate engaged.
    let appends = vec![
        Instruction::Inv,
        Instruction::Load,
        Instruction::Inc(3),
        Instruction::Cdec(1),
        Instruction::Inc(2),
        Instruction::Inv,
    ];
    let mut compressed = Vec::new();
    for i in appends.iter() {
        push_and_compress_instruction(&mut compressed, *i);
    }
    assert_eq!(
        compressed,
        vec![
            Instruction::Inv,
            Instruction::Load,
            Instruction::Inc(5),
            Instruction::Cdec(1),
            Instruction::Inv,
        ]
    );
    assert!(compressed.len() <= appends.len());

    let mut vm_a = Vm::new(appends);
    let stats_a = vm_a.run();
    let mut vm_c = Vm::new(compressed);
    let stats_c = vm_c.run();
    assert_eq!(stats_a.runtime, stats_c.runtime);
    assert_eq!(vm_a.memory_pointer.ptr, vm_c.memory_pointer.ptr);
    assert_eq!(vm_a.memory_pointer.ptr_i, vm_c.memory_pointer.ptr_i);
    assert_eq!(vm_a.register, vm_c.register);
    for k in 0..8 {
        assert_eq!(vm_a.memory.get(k), vm_c.memory.get(k));
    }
}
