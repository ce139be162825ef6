//! The task catalogue and the deterministic test-vector generator.
//!
//! A task is one arithmetic/logic challenge: it fixes the input field
//! widths, the output field width, and a pure relation on the operands.
//! Given the operator seed, the task and a case index, the generator
//! reproducibly yields a packed input bit-layout and the exactly
//! corresponding expected-output bit-layout. Each task reserves its first
//! case indices for fixed boundary vectors; later indices draw operands
//! from a source seeded by the (namespace, seed, task, index) string.

use vstd::prelude::*;
use vstd::arithmetic::power2::*;
use vstd::bits::{lemma_u64_low_bits_mask_is_mod, lemma_low_bits_mask_values};
use vstd::string::{StringExecFns, StrSliceExecFns};
use rand::Rng;
use crate::bits::{Bits, bits_of, pack, pack_spec, layout_wf, total_width};
use crate::error::Error;
use crate::text::{dec_string, int_rep, str_eq};
use crate::util::{inv_mod, mod_inv, lemma_inv_mod_range, lemma_mod_inverse_works};

verus! {

/// The modulus of the modular-arithmetic tasks: 2^16 - 17, a prime.
pub const ECC_MOD: u64 = 65519;

#[derive(Debug, Copy, Clone, PartialEq, Eq, Structural)]
pub enum Task {
    ZeroXor,
    OneAdd1,
    TwoAdd16,
    TwoASub16,
    TwoBSub16,
    ThreeMul16,
    FourAdd16Mod,
    FourASub16Mod,
    FiveMul16Mod,
    FiveAInv16Mod,
    SixPointAdd,
    SevenPointMul,
    EightSha256,
}

/// Whether the task has a test-vector generation rule.
pub open spec fn task_implemented(t: Task) -> bool {
    !(t is SixPointAdd || t is SevenPointMul || t is EightSha256)
}

/// The task's name as it appears in the seed derivation.
pub open spec fn task_name(t: Task) -> Seq<char> {
    match t {
        Task::ZeroXor => "ZeroXor"@,
        Task::OneAdd1 => "OneAdd1"@,
        Task::TwoAdd16 => "TwoAdd16"@,
        Task::TwoASub16 => "TwoASub16"@,
        Task::TwoBSub16 => "TwoBSub16"@,
        Task::ThreeMul16 => "ThreeMul16"@,
        Task::FourAdd16Mod => "FourAdd16Mod"@,
        Task::FourASub16Mod => "FourASub16Mod"@,
        Task::FiveMul16Mod => "FiveMul16Mod"@,
        Task::FiveAInv16Mod => "FiveAInv16Mod"@,
        Task::SixPointAdd => "SixPointAdd"@,
        Task::SevenPointMul => "SevenPointMul"@,
        Task::EightSha256 => "EightSha256"@,
    }
}

/// Which task a task identifier names.
pub open spec fn task_of_name(s: Seq<char>) -> Result<Task, Error> {
    if s == "0"@ {
        Ok(Task::ZeroXor)
    } else if s == "1"@ {
        Ok(Task::OneAdd1)
    } else if s == "2"@ {
        Ok(Task::TwoAdd16)
    } else if s == "2a"@ {
        Ok(Task::TwoASub16)
    } else if s == "3"@ {
        Ok(Task::ThreeMul16)
    } else if s == "4"@ {
        Ok(Task::FourAdd16Mod)
    } else if s == "4a"@ {
        Ok(Task::FourASub16Mod)
    } else if s == "5"@ {
        Ok(Task::FiveMul16Mod)
    } else if s == "5a"@ {
        Ok(Task::FiveAInv16Mod)
    } else if s == "6"@ {
        Ok(Task::SixPointAdd)
    } else if s == "7"@ {
        Ok(Task::SevenPointMul)
    } else if s == "8"@ {
        Ok(Task::EightSha256)
    } else {
        Err(Error::UnknownTask)
    }
}

/// The operands of one case: the reserved boundary vectors at the first
/// indices, and operands derived from the two seeded words after them.
/// A single-input task carries zero as its unused second operand.
pub open spec fn case_operands(t: Task, tc: int, w0: u64, w1: u64) -> (u64, u64) {
    match t {
        Task::ZeroXor => if tc == 0 {
            (0u64, 0u64)
        } else if tc == 1 {
            (1u64, 0u64)
        } else if tc == 2 {
            (0u64, 1u64)
        } else if tc == 3 {
            (1u64, 1u64)
        } else {
            (w0 & 1, w1 & 1)
        },
        Task::OneAdd1 => if tc == 0 {
            (0u64, 0u64)
        } else if tc == 1 {
            (1u64, 0u64)
        } else if tc == 2 {
            (0u64, 1u64)
        } else if tc == 3 {
            (1u64, 1u64)
        } else {
            (w0 & 1, w1 & 1)
        },
        Task::TwoAdd16 => if tc == 0 {
            (0u64, 0u64)
        } else if tc == 1 {
            (1u64, 0u64)
        } else if tc == 2 {
            (0u64, 1u64)
        } else if tc == 3 {
            (1u64, 1u64)
        } else if tc == 4 {
            (0x00ffu64, 8u64)
        } else if tc == 5 {
            (0x0100u64, 8u64)
        } else if tc == 6 {
            (0xffffu64, 0u64)
        } else if tc == 7 {
            (0xffffu64, 1u64)
        } else if tc == 8 {
            (8u64, 0x00ffu64)
        } else if tc == 9 {
            (8u64, 0x0100u64)
        } else if tc == 10 {
            (0u64, 0xffffu64)
        } else if tc == 11 {
            (0x0001u64, 0xffffu64)
        } else if tc == 12 {
            (0xffffu64, 0xffffu64)
        } else {
            (w0 & 0xffff, w1 & 0xffff)
        },
        Task::TwoASub16 => if tc == 0 {
            (0u64, 0u64)
        } else if tc == 1 {
            (1u64, 0u64)
        } else if tc == 2 {
            (1u64, 1u64)
        } else if tc == 3 {
            (0x0100u64, 1u64)
        } else if tc == 4 {
            (0x0100u64, 0x0100u64)
        } else if tc == 5 {
            (0xffffu64, 0u64)
        } else if tc == 6 {
            (0xffffu64, 1u64)
        } else if tc == 7 {
            (0xffffu64, 0x0100u64)
        } else if tc == 8 {
            (0xffffu64, 0xffffu64)
        } else {
            if (w0 & 0xffff) >= (w1 & 0xffff) {
                (w0 & 0xffff, w1 & 0xffff)
            } else {
                (w1 & 0xffff, w0 & 0xffff)
            }
        },
        Task::TwoBSub16 => if tc == 0 {
            (0u64, 0u64)
        } else if tc == 1 {
            (1u64, 0u64)
        } else if tc == 2 {
            (0u64, 1u64)
        } else if tc == 3 {
            (1u64, 1u64)
        } else if tc == 4 {
            (0x0100u64, 1u64)
        } else if tc == 5 {
            (0xffffu64, 0u64)
        } else if tc == 6 {
            (0xffffu64, 0x0100u64)
        } else if tc == 7 {
            (0xffffu64, 1u64)
        } else if tc == 8 {
            (1u64, 0x0100u64)
        } else if tc == 9 {
            (0u64, 0xffffu64)
        } else if tc == 10 {
            (0x0100u64, 0xffffu64)
        } else if tc == 11 {
            (1u64, 0xffffu64)
        } else if tc == 12 {
            (0xffffu64, 0xffffu64)
        } else {
            (w0 & 0xffff, w1 & 0xffff)
        },
        Task::ThreeMul16 => if tc == 0 {
            (0u64, 0u64)
        } else if tc == 1 {
            (1u64, 0u64)
        } else if tc == 2 {
            (0u64, 1u64)
        } else if tc == 3 {
            (1u64, 1u64)
        } else if tc == 4 {
            (0x0aa0u64, 0x0003u64)
        } else if tc == 5 {
            (0xffffu64, 0u64)
        } else if tc == 6 {
            (0xffffu64, 1u64)
        } else if tc == 7 {
            (0x0003u64, 0x0aa0u64)
        } else if tc == 8 {
            (0u64, 0xffffu64)
        } else if tc == 9 {
            (1u64, 0xffffu64)
        } else if tc == 10 {
            (0xffffu64, 0xffffu64)
        } else {
            (w0 & 0xffff, w1 & 0xffff)
        },
        Task::FourAdd16Mod => mod_case_operands(tc, w0, w1),
        Task::FourASub16Mod => mod_case_operands(tc, w0, w1),
        Task::FiveMul16Mod => if tc == 4 {
            (0x0aa0u64, 0x0003u64)
        } else if tc == 7 {
            (0x0003u64, 0x0aa0u64)
        } else {
            mod_case_operands(tc, w0, w1)
        },
        Task::FiveAInv16Mod => (
            if tc == 0 {
                1u64
            } else if tc == 1 {
                2u64
            } else if tc == 2 {
                3u64
            } else if tc == 3 {
                4u64
            } else if tc == 4 {
                inv_mod(2, ECC_MOD as int) as u64
            } else if tc == 5 {
                inv_mod(3, ECC_MOD as int) as u64
            } else if tc == 6 {
                inv_mod(4, ECC_MOD as int) as u64
            } else if tc == 7 {
                (ECC_MOD - 2) as u64
            } else if tc == 8 {
                (ECC_MOD - 1) as u64
            } else {
                (1 + (w0 as int) % (ECC_MOD - 1)) as u64
            },
            0u64,
        ),
        _ => (0u64, 0u64),
    }
}

/// The boundary table shared by the modular add, subtract and multiply
/// tasks, and their uniform draw below the modulus.
pub open spec fn mod_case_operands(tc: int, w0: u64, w1: u64) -> (u64, u64) {
    if tc == 0 {
        (0u64, 0u64)
    } else if tc == 1 {
        (1u64, 0u64)
    } else if tc == 2 {
        (0u64, 1u64)
    } else if tc == 3 {
        (1u64, 1u64)
    } else if tc == 4 {
        (0x0100u64, 0x0080u64)
    } else if tc == 5 {
        ((ECC_MOD - 1) as u64, 0u64)
    } else if tc == 6 {
        ((ECC_MOD - 1) as u64, 1u64)
    } else if tc == 7 {
        (0x0080u64, 0x0100u64)
    } else if tc == 8 {
        (0u64, (ECC_MOD - 1) as u64)
    } else if tc == 9 {
        (1u64, (ECC_MOD - 1) as u64)
    } else if tc == 10 {
        ((ECC_MOD - 1) as u64, (ECC_MOD - 1) as u64)
    } else {
        ((w0 % ECC_MOD) as u64, (w1 % ECC_MOD) as u64)
    }
}

/// The pure relation each implemented task computes on its operands.
pub open spec fn task_output(t: Task, a: u64, b: u64) -> u64 {
    match t {
        Task::ZeroXor => a ^ b,
        Task::OneAdd1 => (a + b) as u64,
        Task::TwoAdd16 => (a + b) as u64,
        Task::TwoASub16 => (((a + 0x10000 - b) as int % 0x10000) as u64),
        Task::TwoBSub16 => (((a + 0x10000 - b) as int % 0x10000) as u64),
        Task::ThreeMul16 => (a * b) as u64,
        Task::FourAdd16Mod => (((a + b) as int % (ECC_MOD as int)) as u64),
        Task::FourASub16Mod => (((a + ECC_MOD - b) as int % (ECC_MOD as int)) as u64),
        Task::FiveMul16Mod => (((a * b) as int % (ECC_MOD as int)) as u64),
        Task::FiveAInv16Mod => inv_mod(a as int, ECC_MOD as int) as u64,
        _ => 0u64,
    }
}

/// The input bit-layout of a case with operands `a` and `b`.
pub open spec fn input_layout(t: Task, a: u64, b: u64) -> Seq<(u64, u64)> {
    match t {
        Task::ZeroXor => seq![(a, 1u64), (b, 1u64)],
        Task::OneAdd1 => seq![(a, 1u64), (b, 1u64)],
        Task::FiveAInv16Mod => seq![(a, 16u64)],
        Task::SixPointAdd => Seq::empty(),
        Task::SevenPointMul => Seq::empty(),
        Task::EightSha256 => Seq::empty(),
        _ => seq![(a, 16u64), (b, 16u64)],
    }
}

/// The expected-output bit-layout of the same case.
pub open spec fn output_layout(t: Task, a: u64, b: u64) -> Seq<(u64, u64)> {
    match t {
        Task::ZeroXor => seq![(task_output(t, a, b), 1u64)],
        Task::OneAdd1 => seq![(task_output(t, a, b), 2u64)],
        Task::TwoAdd16 => seq![(task_output(t, a, b), 17u64)],
        Task::ThreeMul16 => seq![(task_output(t, a, b), 32u64)],
        Task::SixPointAdd => Seq::empty(),
        Task::SevenPointMul => Seq::empty(),
        Task::EightSha256 => Seq::empty(),
        _ => seq![(task_output(t, a, b), 16u64)],
    }
}

/// The operand ranges every implemented task's cases stay inside.
pub open spec fn operands_wf(t: Task, a: u64, b: u64) -> bool {
    match t {
        Task::ZeroXor => a < 2 && b < 2,
        Task::OneAdd1 => a < 2 && b < 2,
        Task::TwoAdd16 => a < 0x10000 && b < 0x10000,
        Task::TwoASub16 => a < 0x10000 && b <= a,
        Task::TwoBSub16 => a < 0x10000 && b < 0x10000,
        Task::ThreeMul16 => a < 0x10000 && b < 0x10000,
        Task::FourAdd16Mod => a < ECC_MOD && b < ECC_MOD,
        Task::FourASub16Mod => a < ECC_MOD && b < ECC_MOD,
        Task::FiveMul16Mod => a < ECC_MOD && b < ECC_MOD,
        Task::FiveAInv16Mod => 1 <= a < ECC_MOD && b == 0,
        _ => true,
    }
}

proof fn lemma_mask1(x: u64)
    ensures
        x & 1 < 2,
{
    assert(x & 1 < 2) by (bit_vector);
}

proof fn lemma_mask16(x: u64)
    ensures
        x & 0xffff < 0x10000,
        x & 0xffff == (x as int) % 0x10000,
{
    lemma_u64_low_bits_mask_is_mod(x, 16);
    lemma_low_bits_mask_values();
    lemma2_to64();
}

proof fn lemma_xor_bound(a: u64, b: u64)
    requires
        a < 2,
        b < 2,
    ensures
        a ^ b < 2,
        (a ^ b == 1) == (a != b),
{
    assert(a < 2 && b < 2 ==> (a ^ b < 2) && ((a ^ b == 1) == (a != b))) by (bit_vector);
}

/// The inverse-task table never hands out zero: each reserved inverse is
/// itself invertible, so it cannot vanish modulo the prime.
proof fn lemma_inv_entry_nonzero(a: int)
    requires
        1 <= a < 65519,
    ensures
        1 <= inv_mod(a, 65519) < 65519,
{
    lemma_mod_inverse_works(a);
    if inv_mod(a, 65519) == 0 {
        assert((a * 0) % 65519 == 0) by (nonlinear_arith);
    }
}

/// Every case of an implemented task keeps its operands in range.
pub proof fn lemma_operands_wf(t: Task, tc: int, w0: u64, w1: u64)
    ensures
        ({
            let (a, b) = case_operands(t, tc, w0, w1);
            operands_wf(t, a, b)
        }),
{
    lemma_mask1(w0);
    lemma_mask1(w1);
    lemma_mask16(w0);
    lemma_mask16(w1);
    if t is FiveAInv16Mod {
        lemma_inv_entry_nonzero(2);
        lemma_inv_entry_nonzero(3);
        lemma_inv_entry_nonzero(4);
    }
}

proof fn lemma_total_width1(a: u64, wa: u64)
    ensures
        total_width(seq![(a, wa)]) == wa,
        pack_spec(seq![(a, wa)]).len() == wa,
{
    let s = seq![(a, wa)];
    assert(s.drop_last() =~= Seq::<(u64, u64)>::empty());
    assert(s.last() == (a, wa));
    assert(total_width(s) == total_width(s.drop_last()) + wa);
    assert(total_width(Seq::<(u64, u64)>::empty()) == 0);
    crate::bits::lemma_pack_len(s);
}

proof fn lemma_total_width2(a: u64, wa: u64, b: u64, wb: u64)
    ensures
        total_width(seq![(a, wa), (b, wb)]) == wa + wb,
        pack_spec(seq![(a, wa), (b, wb)]).len() == wa + wb,
{
    let s = seq![(a, wa), (b, wb)];
    assert(s.drop_last() =~= seq![(a, wa)]);
    assert(s.last() == (b, wb));
    assert(total_width(s) == total_width(s.drop_last()) + wb);
    lemma_total_width1(a, wa);
    crate::bits::lemma_pack_len(s);
}

/// The layouts of an in-range case are well formed and at most 32 bits
/// on each side.
pub proof fn lemma_layout_wf(t: Task, a: u64, b: u64)
    requires
        operands_wf(t, a, b),
    ensures
        layout_wf(input_layout(t, a, b)),
        layout_wf(output_layout(t, a, b)),
        0 <= total_width(input_layout(t, a, b)) <= 32,
        0 <= total_width(output_layout(t, a, b)) <= 32,
{
    lemma2_to64();
    let out = task_output(t, a, b);
    match t {
        Task::ZeroXor => {
            lemma_xor_bound(a, b);
            lemma_total_width2(a, 1, b, 1);
            lemma_total_width1(out, 1);
        },
        Task::OneAdd1 => {
            lemma_total_width2(a, 1, b, 1);
            lemma_total_width1(out, 2);
        },
        Task::TwoAdd16 => {
            lemma_total_width2(a, 16, b, 16);
            lemma_total_width1(out, 17);
        },
        Task::TwoASub16 => {
            lemma_total_width2(a, 16, b, 16);
            lemma_total_width1(out, 16);
        },
        Task::TwoBSub16 => {
            lemma_total_width2(a, 16, b, 16);
            lemma_total_width1(out, 16);
        },
        Task::ThreeMul16 => {
            assert(a * b < 0x1_0000_0000) by (nonlinear_arith)
                requires
                    a < 0x10000,
                    b < 0x10000,
            ;
            lemma_total_width2(a, 16, b, 16);
            lemma_total_width1(out, 32);
        },
        Task::FourAdd16Mod => {
            lemma_total_width2(a, 16, b, 16);
            lemma_total_width1(out, 16);
        },
        Task::FourASub16Mod => {
            lemma_total_width2(a, 16, b, 16);
            lemma_total_width1(out, 16);
        },
        Task::FiveMul16Mod => {
            lemma_total_width2(a, 16, b, 16);
            lemma_total_width1(out, 16);
        },
        Task::FiveAInv16Mod => {
            lemma_inv_mod_range(a as int, ECC_MOD as int);
            lemma_total_width1(a, 16);
            lemma_total_width1(out, 16);
        },
        _ => {
        },
    }
}

fn layout1(a: u64, wa: u64) -> (r: Vec<(u64, u64)>)
    ensures
        r@ == seq![(a, wa)],
{
    let mut v: Vec<(u64, u64)> = Vec::new();
    v.push((a, wa));
    proof {
        assert(v@ =~= seq![(a, wa)]);
    }
    v
}

fn layout2(a: u64, wa: u64, b: u64, wb: u64) -> (r: Vec<(u64, u64)>)
    ensures
        r@ == seq![(a, wa), (b, wb)],
{
    let mut v: Vec<(u64, u64)> = Vec::new();
    v.push((a, wa));
    v.push((b, wb));
    proof {
        assert(v@ =~= seq![(a, wa), (b, wb)]);
    }
    v
}

/// The shared boundary table of the modular tasks, computed.
fn mod_ops(tc_id: i8, w0: u64, w1: u64) -> (r: (u64, u64))
    ensures
        r == mod_case_operands(tc_id as int, w0, w1),
{
    match tc_id {
        0 => (0, 0),
        1 => (1, 0),
        2 => (0, 1),
        3 => (1, 1),
        4 => (0x0100, 0x0080),
        5 => (ECC_MOD - 1, 0),
        6 => (ECC_MOD - 1, 1),
        7 => (0x0080, 0x0100),
        8 => (0, ECC_MOD - 1),
        9 => (1, ECC_MOD - 1),
        10 => (ECC_MOD - 1, ECC_MOD - 1),
        _ => (w0 % ECC_MOD, w1 % ECC_MOD),
    }
}

impl Task {
    /// The task a task identifier names, or the unknown-task error.
    pub fn from_str(task_name_str: &str) -> (r: Result<Task, Error>)
        ensures
            r == task_of_name(task_name_str@),
    {
        if str_eq(task_name_str, "0") {
            Ok(Task::ZeroXor)
        } else if str_eq(task_name_str, "1") {
            Ok(Task::OneAdd1)
        } else if str_eq(task_name_str, "2") {
            Ok(Task::TwoAdd16)
        } else if str_eq(task_name_str, "2a") {
            Ok(Task::TwoASub16)
        } else if str_eq(task_name_str, "3") {
            Ok(Task::ThreeMul16)
        } else if str_eq(task_name_str, "4") {
            Ok(Task::FourAdd16Mod)
        } else if str_eq(task_name_str, "4a") {
            Ok(Task::FourASub16Mod)
        } else if str_eq(task_name_str, "5") {
            Ok(Task::FiveMul16Mod)
        } else if str_eq(task_name_str, "5a") {
            Ok(Task::FiveAInv16Mod)
        } else if str_eq(task_name_str, "6") {
            Ok(Task::SixPointAdd)
        } else if str_eq(task_name_str, "7") {
            Ok(Task::SevenPointMul)
        } else if str_eq(task_name_str, "8") {
            Ok(Task::EightSha256)
        } else {
            Err(Error::UnknownTask)
        }
    }

    /// The name used in the seed derivation.
    pub fn debug_name(&self) -> (r: &'static str)
        ensures
            r@ == task_name(*self),
    {
        match self {
            Task::ZeroXor => "ZeroXor",
            Task::OneAdd1 => "OneAdd1",
            Task::TwoAdd16 => "TwoAdd16",
            Task::TwoASub16 => "TwoASub16",
            Task::TwoBSub16 => "TwoBSub16",
            Task::ThreeMul16 => "ThreeMul16",
            Task::FourAdd16Mod => "FourAdd16Mod",
            Task::FourASub16Mod => "FourASub16Mod",
            Task::FiveMul16Mod => "FiveMul16Mod",
            Task::FiveAInv16Mod => "FiveAInv16Mod",
            Task::SixPointAdd => "SixPointAdd",
            Task::SevenPointMul => "SevenPointMul",
            Task::EightSha256 => "EightSha256",
        }
    }

    /// The input and expected-output bit-layouts of one case, with the
    /// two seeded words standing in for the case's random draws.
    pub fn get_tc(self, tc_id: i8, w0: u64, w1: u64) -> (r: Result<
        (Vec<(u64, u64)>, Vec<(u64, u64)>),
        Error,
    >)
        ensures
            task_implemented(self) ==> ({
                let (a, b) = case_operands(self, tc_id as int, w0, w1);
                &&& r is Ok
                &&& r->Ok_0.0@ == input_layout(self, a, b)
                &&& r->Ok_0.1@ == output_layout(self, a, b)
            }),
            !task_implemented(self) ==> r == Err::<(Vec<(u64, u64)>, Vec<(u64, u64)>), Error>(
                Error::TaskNotImplemented,
            ),
    {
        proof {
            lemma_operands_wf(self, tc_id as int, w0, w1);
            lemma_mask1(w0);
            lemma_mask1(w1);
            lemma_mask16(w0);
            lemma_mask16(w1);
        }
        match self {
            Task::ZeroXor => {
                let (in_a, in_b) = match tc_id {
                    0 => (0, 0),
                    1 => (1, 0),
                    2 => (0, 1),
                    3 => (1, 1),
                    _ => (w0 & 1, w1 & 1),
                };
                let out = in_a ^ in_b;
                Ok((layout2(in_a, 1, in_b, 1), layout1(out, 1)))
            },
            Task::OneAdd1 => {
                let (in_a, in_b) = match tc_id {
                    0 => (0, 0),
                    1 => (1, 0),
                    2 => (0, 1),
                    3 => (1, 1),
                    _ => (w0 & 1, w1 & 1),
                };
                let out = in_a + in_b;
                Ok((layout2(in_a, 1, in_b, 1), layout1(out, 2)))
            },
            Task::TwoAdd16 => {
                let (in_a, in_b) = match tc_id {
                    0 => (0, 0),
                    1 => (1, 0),
                    2 => (0, 1),
                    3 => (1, 1),
                    4 => (0x00ff, 8),
                    5 => (0x0100, 8),
                    6 => (0xffff, 0),
                    7 => (0xffff, 1),
                    8 => (8, 0x00ff),
                    9 => (8, 0x0100),
                    10 => (0, 0xffff),
                    11 => (0x0001, 0xffff),
                    12 => (0xffff, 0xffff),
                    _ => (w0 & 0xffff, w1 & 0xffff),
                };
                let out = in_a + in_b;
                Ok((layout2(in_a, 16, in_b, 16), layout1(out, 17)))
            },
            Task::TwoASub16 => {
                let (in_a, in_b) = match tc_id {
                    0 => (0, 0),
                    1 => (1, 0),
                    2 => (1, 1),
                    3 => (0x0100, 1),
                    4 => (0x0100, 0x0100),
                    5 => (0xffff, 0),
                    6 => (0xffff, 1),
                    7 => (0xffff, 0x0100),
                    8 => (0xffff, 0xffff),
                    _ => {
                        let ta = w0 & 0xffff;
                        let tb = w1 & 0xffff;
                        if ta >= tb {
                            (ta, tb)
                        } else {
                            (tb, ta)
                        }
                    },
                };
                let out = (in_a + 0x10000 - in_b) & 0xffff;
                proof {
                    lemma_mask16((in_a + 0x10000 - in_b) as u64);
                }
                Ok((layout2(in_a, 16, in_b, 16), layout1(out, 16)))
            },
            Task::TwoBSub16 => {
                let (in_a, in_b) = match tc_id {
                    0 => (0, 0),
                    1 => (1, 0),
                    2 => (0, 1),
                    3 => (1, 1),
                    4 => (0x0100, 1),
                    5 => (0xffff, 0),
                    6 => (0xffff, 0x0100),
                    7 => (0xffff, 1),
                    8 => (1, 0x0100),
                    9 => (0, 0xffff),
                    10 => (0x0100, 0xffff),
                    11 => (1, 0xffff),
                    12 => (0xffff, 0xffff),
                    _ => (w0 & 0xffff, w1 & 0xffff),
                };
                let out = (in_a + 0x10000 - in_b) & 0xffff;
                proof {
                    lemma_mask16((in_a + 0x10000 - in_b) as u64);
                }
                Ok((layout2(in_a, 16, in_b, 16), layout1(out, 16)))
            },
            Task::ThreeMul16 => {
                let (in_a, in_b) = match tc_id {
                    0 => (0, 0),
                    1 => (1, 0),
                    2 => (0, 1),
                    3 => (1, 1),
                    4 => (0x0aa0, 0x0003),
                    5 => (0xffff, 0),
                    6 => (0xffff, 1),
                    7 => (0x0003, 0x0aa0),
                    8 => (0, 0xffff),
                    9 => (1, 0xffff),
                    10 => (0xffff, 0xffff),
                    _ => (w0 & 0xffff, w1 & 0xffff),
                };
                proof {
                    assert(in_a * in_b < 0x1_0000_0000) by (nonlinear_arith)
                        requires
                            in_a < 0x10000,
                            in_b < 0x10000,
                    ;
                }
                let out = in_a * in_b;
                Ok((layout2(in_a, 16, in_b, 16), layout1(out, 32)))
            },
            Task::FourAdd16Mod => {
                let (in_a, in_b) = mod_ops(tc_id, w0, w1);
                let out = (in_a + in_b) % ECC_MOD;
                Ok((layout2(in_a, 16, in_b, 16), layout1(out, 16)))
            },
            Task::FourASub16Mod => {
                let (in_a, in_b) = mod_ops(tc_id, w0, w1);
                let out = (in_a + ECC_MOD - in_b) % ECC_MOD;
                Ok((layout2(in_a, 16, in_b, 16), layout1(out, 16)))
            },
            Task::FiveMul16Mod => {
                let (in_a, in_b) = match tc_id {
                    4 => (0x0aa0, 0x0003),
                    7 => (0x0003, 0x0aa0),
                    _ => mod_ops(tc_id, w0, w1),
                };
                proof {
                    assert(in_a * in_b < 0x1_0000_0000) by (nonlinear_arith)
                        requires
                            in_a < ECC_MOD,
                            in_b < ECC_MOD,
                    ;
                }
                let out = (in_a * in_b) % ECC_MOD;
                Ok((layout2(in_a, 16, in_b, 16), layout1(out, 16)))
            },
            Task::FiveAInv16Mod => {
                let in_a = match tc_id {
                    0 => 1,
                    1 => 2,
                    2 => 3,
                    3 => 4,
                    4 => mod_inv(2, ECC_MOD),
                    5 => mod_inv(3, ECC_MOD),
                    6 => mod_inv(4, ECC_MOD),
                    7 => ECC_MOD - 2,
                    8 => ECC_MOD - 1,
                    _ => 1 + (w0 % (ECC_MOD - 1)),
                };
                proof {
                    lemma_inv_mod_range(2, ECC_MOD as int);
                    lemma_inv_mod_range(3, ECC_MOD as int);
                    lemma_inv_mod_range(4, ECC_MOD as int);
                }
                let out = mod_inv(in_a, ECC_MOD);
                Ok((layout1(in_a, 16), layout1(out, 16)))
            },
            Task::SixPointAdd => Err(Error::TaskNotImplemented),
            Task::SevenPointMul => Err(Error::TaskNotImplemented),
            Task::EightSha256 => Err(Error::TaskNotImplemented),
        }
    }
}

/// A word of the pseudo-random stream seeded by `seed`: the stream is a
/// pure function of the seed string alone.
pub uninterp spec fn seeded_word(seed: Seq<char>, i: int) -> u64;

/// Relies on rand_seeder::Seeder (SipHash-based; documented portable and
/// reproducible) seeding rand's StdRng, whose draws are then a pure
/// function of the seed string: the first two 64-bit words of the stream.
#[verifier::external_body]
fn seeded_pair(seed: &str) -> (r: (u64, u64))
    ensures
        r.0 == seeded_word(seed@, 0),
        r.1 == seeded_word(seed@, 1),
{
    let mut rng: rand::rngs::StdRng = rand_seeder::Seeder::from(seed).make_rng();
    (rng.gen::<u64>(), rng.gen::<u64>())
}

/// The string a case's randomness is derived from: the namespace tag, the
/// operator seed, the task name and the case index.
pub open spec fn case_seed_chars(seed: Seq<char>, t: Task, tc: int) -> Seq<char> {
    "WPKPP/"@ + seed + "/"@ + task_name(t) + "/"@ + int_rep(tc)
}

fn case_seed_string(seed: &str, t: Task, tc_id: i8) -> (r: String)
    ensures
        r@ == case_seed_chars(seed@, t, tc_id as int),
{
    let mut s = String::from_str("WPKPP/");
    s.append(seed);
    s.append("/");
    s.append(t.debug_name());
    s.append("/");
    if tc_id < 0 {
        s.append("-");
        let m = -(tc_id as i64);
        let d = dec_string(m as u64);
        s.append(d.as_str());
    } else {
        let d = dec_string(tc_id as u64);
        s.append(d.as_str());
    }
    proof {
        assert(s@ =~= case_seed_chars(seed@, t, tc_id as int));
    }
    s
}

/// The two words a case draws, as a function of seed, task and index.
pub open spec fn case_words(seed: Seq<char>, t: Task, tc: int) -> (u64, u64) {
    (seeded_word(case_seed_chars(seed, t, tc), 0), seeded_word(case_seed_chars(seed, t, tc), 1))
}

/// The packed input bits of one case.
pub open spec fn case_input_bits(seed: Seq<char>, t: Task, tc: int) -> Seq<bool> {
    let w = case_words(seed, t, tc);
    let ops = case_operands(t, tc, w.0, w.1);
    pack_spec(input_layout(t, ops.0, ops.1))
}

/// The packed expected-output bits of the same case.
pub open spec fn case_output_bits(seed: Seq<char>, t: Task, tc: int) -> Seq<bool> {
    let w = case_words(seed, t, tc);
    let ops = case_operands(t, tc, w.0, w.1);
    pack_spec(output_layout(t, ops.0, ops.1))
}

impl Task {
    /// Deterministically yields the packed input bits and the matching
    /// expected-output bits of one test vector, under the given operator
    /// seed.
    pub fn load_tc(self, tc_id: i8, seed: &str) -> (r: Result<(Bits, Bits), Error>)
        ensures
            task_implemented(self) ==> r is Ok && bits_of(r->Ok_0.0) == case_input_bits(
                seed@,
                self,
                tc_id as int,
            ) && bits_of(r->Ok_0.1) == case_output_bits(seed@, self, tc_id as int),
            !task_implemented(self) ==> r == Err::<(Bits, Bits), Error>(
                Error::TaskNotImplemented,
            ),
    {
        let cs = case_seed_string(seed, self, tc_id);
        let ws = seeded_pair(cs.as_str());
        match self.get_tc(tc_id, ws.0, ws.1) {
            Ok(layouts) => {
                proof {
                    lemma_operands_wf(self, tc_id as int, ws.0, ws.1);
                    let ops = case_operands(self, tc_id as int, ws.0, ws.1);
                    lemma_layout_wf(self, ops.0, ops.1);
                    assert(usize::MAX >= 0xffff_ffff);
                }
                Ok((pack(&layouts.0), pack(&layouts.1)))
            },
            Err(e) => Err(e),
        }
    }
}

/// The XOR task's law: in every case, reserved or drawn, the operands are
/// single bits, indices 0 to 3 carry the fixed truth-table inputs, and
/// the expected output bit is the logical XOR of the two input bits.
pub proof fn lemma_xor_relation(seed: Seq<char>, tc: int)
    ensures
        ({
            let w = case_words(seed, Task::ZeroXor, tc);
            let (a, b) = case_operands(Task::ZeroXor, tc, w.0, w.1);
            &&& a < 2 && b < 2
            &&& tc == 0 ==> (a, b) == (0u64, 0u64)
            &&& tc == 1 ==> (a, b) == (1u64, 0u64)
            &&& tc == 2 ==> (a, b) == (0u64, 1u64)
            &&& tc == 3 ==> (a, b) == (1u64, 1u64)
            &&& case_input_bits(seed, Task::ZeroXor, tc).len() == 2
            &&& case_output_bits(seed, Task::ZeroXor, tc).len() == 1
            &&& case_output_bits(seed, Task::ZeroXor, tc)[0] == (case_input_bits(
                seed,
                Task::ZeroXor,
                tc,
            )[0] != case_input_bits(seed, Task::ZeroXor, tc)[1])
        }),
{
    let w = case_words(seed, Task::ZeroXor, tc);
    let (a, b) = case_operands(Task::ZeroXor, tc, w.0, w.1);
    lemma_operands_wf(Task::ZeroXor, tc, w.0, w.1);
    lemma_xor_bound(a, b);
    lemma2_to64();
    let inl = input_layout(Task::ZeroXor, a, b);
    let outl = output_layout(Task::ZeroXor, a, b);
    assert(inl.drop_last() =~= seq![(a, 1u64)]);
    assert(seq![(a, 1u64)].drop_last() =~= Seq::<(u64, u64)>::empty());
    assert(outl.drop_last() =~= Seq::<(u64, u64)>::empty());
    assert(pack_spec(seq![(a, 1u64)]) =~= pack_spec(Seq::<(u64, u64)>::empty())
        + crate::bits::field_bits(a, 1));
    assert(pack_spec(inl) =~= pack_spec(seq![(a, 1u64)]) + crate::bits::field_bits(b, 1));
    assert(pack_spec(outl) =~= pack_spec(Seq::<(u64, u64)>::empty()) + crate::bits::field_bits(
        a ^ b,
        1,
    ));
    assert(case_input_bits(seed, Task::ZeroXor, tc) =~= crate::bits::field_bits(a, 1)
        + crate::bits::field_bits(b, 1));
    assert(crate::bits::bit_of(a, 0) == (a == 1));
    assert(crate::bits::bit_of(b, 0) == (b == 1));
    assert(crate::bits::bit_of(a ^ b, 0) == ((a ^ b) == 1));
}

/// Determinism: the generated layouts are a function of exactly the
/// operator seed, the task and the case index; two layouts produced for
/// one triple are bit-identical.
pub proof fn lemma_generator_deterministic(
    in1: Seq<bool>,
    out1: Seq<bool>,
    in2: Seq<bool>,
    out2: Seq<bool>,
    seed: Seq<char>,
    t: Task,
    tc: int,
)
    requires
        in1 == case_input_bits(seed, t, tc),
        out1 == case_output_bits(seed, t, tc),
        in2 == case_input_bits(seed, t, tc),
        out2 == case_output_bits(seed, t, tc),
    ensures
        in1 == in2,
        out1 == out2,
{
}

/// The inverse task's law: every case's input is a nonzero residue below
/// the modulus, and its expected output multiplied by the input is 1
/// modulo the modulus.
pub proof fn lemma_inverse_case(seed: Seq<char>, tc: int)
    ensures
        ({
            let w = case_words(seed, Task::FiveAInv16Mod, tc);
            let (a, b) = case_operands(Task::FiveAInv16Mod, tc, w.0, w.1);
            &&& 1 <= a < ECC_MOD
            &&& (a as int * task_output(Task::FiveAInv16Mod, a, b) as int) % (ECC_MOD as int) == 1
        }),
{
    let w = case_words(seed, Task::FiveAInv16Mod, tc);
    let (a, b) = case_operands(Task::FiveAInv16Mod, tc, w.0, w.1);
    lemma_operands_wf(Task::FiveAInv16Mod, tc, w.0, w.1);
    lemma_mod_inverse_works(a as int);
}

} // verus!
