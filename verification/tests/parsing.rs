use wpkpp::bits::{pack, unpack};
use wpkpp::check_valid_extension;
use wpkpp::error::Error;
use wpkpp::parse::{parse_wpk_text, parse_wpkm_text};
use wpkpp::vm::{serialize_wpk, serialize_wpkm, Instruction};

#[test]
fn extensions_are_checked() {
    assert!(check_valid_extension("solution.wpk"));
    assert!(check_valid_extension("solution.wpkm"));
    assert!(!check_valid_extension("solution.txt"));
    assert!(!check_valid_extension("wpk"));
    assert!(!check_valid_extension(""));
}

#[test]
fn verbose_form_parses_and_compresses() {
    let text = "INC 5\nCDEC 3\nINC 2\n\nLOAD\nINV\nCDEC\n";
    let stream = parse_wpk_text(text).unwrap();
    assert_eq!(
        stream,
        vec![
            Instruction::Inc(7),
            Instruction::Cdec(3),
            Instruction::Load,
            Instruction::Inv,
            Instruction::Cdec(1),
        ]
    );
}

#[test]
fn verbose_form_accepts_extra_whitespace() {
    let stream = parse_wpk_text("  INC   12 \n\tCDEC\t4\n").unwrap();
    assert_eq!(stream, vec![Instruction::Inc(12), Instruction::Cdec(4)]);
}

#[test]
fn verbose_form_rejects_bad_lines() {
    assert!(matches!(
        parse_wpk_text("INC 4294967296\n"),
        Err(Error::RepetitionTooLarge { value: 4294967296, line: 0 })
    ));
    assert!(matches!(
        parse_wpk_text("INC\nWOBBLE\n"),
        Err(Error::UnknownInstruction { line: 1 })
    ));
    assert!(matches!(
        parse_wpk_text("CDEC five\n"),
        Err(Error::InvalidNumber { line: 0 })
    ));
    assert!(matches!(
        parse_wpk_text("LOAD 3\n"),
        Err(Error::UnknownInstruction { line: 0 })
    ));
    assert!(matches!(
        parse_wpk_text("INC 3 4\n"),
        Err(Error::UnknownInstruction { line: 0 })
    ));
}

#[test]
fn compact_form_parses_and_compresses() {
    let stream = parse_wpkm_text("5> 3< 2> ?!<").unwrap();
    assert_eq!(
        stream,
        vec![
            Instruction::Inc(7),
            Instruction::Cdec(3),
            Instruction::Load,
            Instruction::Inv,
            Instruction::Cdec(1),
        ]
    );
    let alt = parse_wpkm_text("v^").unwrap();
    assert_eq!(alt, vec![Instruction::Load, Instruction::Inv]);
}

#[test]
fn compact_form_multi_digit_counts() {
    let stream = parse_wpkm_text("1 2 3 >").unwrap();
    assert_eq!(stream, vec![Instruction::Inc(123)]);
}

#[test]
fn compact_form_rejects_bad_input() {
    assert!(matches!(
        parse_wpkm_text("4294967296>"),
        Err(Error::RepeatTooLargeAt { value: 4294967296, offset: 10 })
    ));
    assert!(matches!(
        parse_wpkm_text("99999999999"),
        Err(Error::RepeatTooLargeAt { .. })
    ));
    assert!(matches!(
        parse_wpkm_text("3?"),
        Err(Error::RepeatOnLoad { value: 3, offset: 1 })
    ));
    assert!(matches!(
        parse_wpkm_text("2^"),
        Err(Error::RepeatOnInv { value: 2, offset: 1 })
    ));
    assert!(matches!(
        parse_wpkm_text(">x"),
        Err(Error::InvalidCharacter { offset: 1 })
    ));
    assert!(matches!(
        parse_wpkm_text("12"),
        Err(Error::DanglingRepeat { value: 12 })
    ));
}

#[test]
fn serialized_streams_reparse_to_the_same_stream() {
    let stream = parse_wpkm_text("5>3<2>?!").unwrap();
    let verbose = serialize_wpk(&stream);
    assert_eq!(verbose, "INC 7\nCDEC 3\nLOAD\nINV\n");
    assert_eq!(parse_wpk_text(&verbose).unwrap(), stream);
    let compact = serialize_wpkm(&stream);
    assert_eq!(compact, "7>3<?!");
    assert_eq!(parse_wpkm_text(&compact).unwrap(), stream);
}

#[test]
fn pack_then_unpack_recovers_every_field() {
    let layout = vec![(5u64, 3u64), (9u64, 4u64), (1u64, 1u64), (0xABCDu64, 16u64)];
    let packed = pack(&layout);
    assert_eq!(packed.len(), 24);
    let widths = vec![3u64, 4u64, 1u64, 16u64];
    assert_eq!(unpack(&packed, &widths), vec![5, 9, 1, 0xABCD]);
}

#[test]
fn packing_is_least_significant_bit_first() {
    let layout = vec![(0b101u64, 3u64), (0b01u64, 2u64)];
    let packed = pack(&layout);
    let expect = [true, false, true, true, false];
    for (k, e) in expect.iter().enumerate() {
        assert_eq!(packed.get(k), *e);
    }
}
