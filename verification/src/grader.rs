//! The grading harness: drives a fixed batch of generated test cases
//! against one task and one compiled program, and aggregates the verdict
//! and the resource statistics.

use vstd::prelude::*;
use vstd::pervasive::unreached;
use crate::bits::{bits_of, lemma_pack_len};
use crate::error::Error;
use crate::task::{
    Task, task_implemented, case_input_bits, case_output_bits, case_operands, case_words,
    input_layout, output_layout, lemma_operands_wf, lemma_layout_wf,
};
use crate::vm::{
    Vm, Instruction, Instructions, VmState, no_nulls, total_cost, exec, init_state,
    spec_span, MAX_PROGRAM_COST, MEM_SIZE, stream_opcount, inc_weight, cdec_weight, load_count,
    inv_count, lemma_weights_sum, lemma_exec_cost, lemma_total_cost_nonneg,
};

verus! {

/// The number of test cases a grading run drives.
pub const CASE_COUNT: u64 = 100;

/// The tape a case starts from: the packed input at offset zero, all
/// other bits clear.
pub open spec fn case_start_tape(seed: Seq<char>, t: Task, tc: int) -> Seq<bool> {
    let inb = case_input_bits(seed, t, tc);
    Seq::new(
        MEM_SIZE as nat,
        |i: int|
            if i < inb.len() {
                inb[i]
            } else {
                false
            },
    )
}

/// The machine state once a case has run to completion.
pub open spec fn case_final(seed: Seq<char>, t: Task, tc: int, prog: Seq<Instruction>) -> VmState {
    exec(init_state(case_start_tape(seed, t, tc)), prog)
}

/// One case passes when the tape region just after the input matches the
/// expected output bit for bit.
pub open spec fn case_passes(seed: Seq<char>, t: Task, tc: int, prog: Seq<Instruction>) -> bool {
    let inb = case_input_bits(seed, t, tc);
    let outb = case_output_bits(seed, t, tc);
    case_final(seed, t, tc, prog).tape.subrange(
        inb.len() as int,
        inb.len() as int + outb.len() as int,
    ) == outb
}

/// The excursion span one case's run reports.
pub open spec fn case_span(seed: Seq<char>, t: Task, tc: int, prog: Seq<Instruction>) -> int {
    let fin = case_final(seed, t, tc, prog);
    spec_span(fin.lo, fin.hi)
}

/// How many of the first `n` cases pass.
pub open spec fn passed_count(seed: Seq<char>, t: Task, prog: Seq<Instruction>, n: int) -> int
    decreases n,
    when n >= 0
{
    if n <= 0 {
        0
    } else {
        passed_count(seed, t, prog, n - 1) + (if case_passes(seed, t, n - 1, prog) {
            1int
        } else {
            0
        })
    }
}

/// The largest excursion span among the first `n` cases; zero when none
/// have run.
pub open spec fn max_span(seed: Seq<char>, t: Task, prog: Seq<Instruction>, n: int) -> int
    decreases n,
    when n >= 0
{
    if n <= 0 {
        0
    } else {
        let m = max_span(seed, t, prog, n - 1);
        let s = case_span(seed, t, n - 1, prog);
        if s > m {
            s
        } else {
            m
        }
    }
}

/// Everything a grading run reports: the score, the verdict, the worst
/// runtime and memory excursion observed, and the program's static
/// weighted opcount.
pub struct GradeOutcome {
    pub correct: u64,
    pub total: u64,
    pub verdict: bool,
    pub max_runtime: i64,
    pub max_memory: i64,
    pub inc_count: u64,
    pub cdec_count: u64,
    pub load_count: u64,
    pub inv_count: u64,
    pub case_results: Vec<bool>,
}

/// Grades one compiled program against one task under the given operator
/// seed: a fixed batch of generated cases, each run from a reset engine
/// with the packed input at tape offset zero, the tape region after the
/// input compared with the expected output. The verdict is pass only if
/// every case matched. Programs whose total weighted cost is over the
/// execution ceiling are refused up front.
pub fn do_grade(task: Task, program: Instructions, seed: &str) -> (r: Result<GradeOutcome, Error>)
    requires
        no_nulls(program@),
    ensures
        match r {
            Ok(g) => {
                &&& task_implemented(task)
                &&& total_cost(program@) <= MAX_PROGRAM_COST
                &&& g.total == CASE_COUNT
                &&& g.correct == passed_count(seed@, task, program@, CASE_COUNT as int)
                &&& g.verdict == (g.correct == CASE_COUNT)
                &&& g.max_runtime == total_cost(program@)
                &&& g.max_memory == max_span(seed@, task, program@, CASE_COUNT as int)
                &&& g.inc_count == inc_weight(program@)
                &&& g.cdec_count == cdec_weight(program@)
                &&& g.load_count == load_count(program@)
                &&& g.inv_count == inv_count(program@)
                &&& g.case_results@.len() == CASE_COUNT
                &&& forall|k: int|
                    0 <= k < CASE_COUNT ==> #[trigger] g.case_results@[k] == case_passes(
                        seed@,
                        task,
                        k,
                        program@,
                    )
            },
            Err(e) => {
                ||| (e == Error::CostCeiling && total_cost(program@) > MAX_PROGRAM_COST)
                ||| (e == Error::TaskNotImplemented && total_cost(program@) <= MAX_PROGRAM_COST
                    && !task_implemented(task))
            },
        },
{
    let ghost prog = program@;
    proof {
        lemma_weights_sum(prog);
    }
    let oc = match stream_opcount(&program) {
        Some(c) => c,
        None => {
            return Err(Error::CostCeiling);
        },
    };
    let weight: u128 = oc.0 as u128 + oc.1 as u128 + oc.2 as u128 + oc.3 as u128;
    if weight > MAX_PROGRAM_COST as u128 {
        return Err(Error::CostCeiling);
    }
    match task {
        Task::SixPointAdd | Task::SevenPointMul | Task::EightSha256 => {
            return Err(Error::TaskNotImplemented);
        },
        _ => {},
    }
    let mut vm = Vm::new(program);
    let mut correct: u64 = 0;
    let mut total: u64 = 0;
    let mut max_runtime: i64 = 0;
    let mut max_memory: i64 = 0;
    let mut case_results: Vec<bool> = Vec::new();
    let mut tc: i8 = 0;
    while tc < 100
        invariant
            case_results@.len() == tc,
            forall|k: int|
                0 <= k < tc ==> #[trigger] case_results@[k] == case_passes(seed@, task, k, prog),
            task_implemented(task),
            vm.wf(),
            vm.program@ == prog,
            total_cost(prog) <= MAX_PROGRAM_COST,
            0 <= tc <= 100,
            total == tc,
            correct <= total,
            correct == passed_count(seed@, task, prog, tc as int),
            max_memory == max_span(seed@, task, prog, tc as int),
            max_runtime == if tc == 0 {
                0int
            } else {
                total_cost(prog)
            },
        decreases 100 - tc,
    {
        let pair = match task.load_tc(tc, seed) {
            Ok(p) => p,
            Err(_) => unreached(),
        };
        let (input_mem, ans_mem) = pair;
        let ghost inb = case_input_bits(seed@, task, tc as int);
        let ghost outb = case_output_bits(seed@, task, tc as int);
        proof {
            let w = case_words(seed@, task, tc as int);
            lemma_operands_wf(task, tc as int, w.0, w.1);
            let ops = case_operands(task, tc as int, w.0, w.1);
            lemma_layout_wf(task, ops.0, ops.1);
            lemma_pack_len(input_layout(task, ops.0, ops.1));
            lemma_pack_len(output_layout(task, ops.0, ops.1));
        }
        vm.reset();
        let in_len = input_mem.len();
        let mut j: usize = 0;
        while j < in_len
            invariant
                vm.wf(),
                vm.program@ == prog,
                0 <= j <= in_len,
                in_len == inb.len(),
                in_len <= 32,
                bits_of(input_mem) == inb,
                vm.memory_pointer.ptr == 0,
                vm.memory_pointer.ptr_i == 0,
                vm.memory_pointer.ptr_lb == 0,
                vm.memory_pointer.ptr_ub == 0,
                vm.instruction_pointer == 0,
                vm.runtime == 0,
                vm.register == false,
                bits_of(vm.memory) =~= Seq::new(
                    MEM_SIZE as nat,
                    |i: int|
                        if i < j {
                            inb[i]
                        } else {
                            false
                        },
                ),
            decreases in_len - j,
        {
            let b = input_mem.get(j);
            vm.memory.set(j, b);
            j = j + 1;
        }
        proof {
            assert(bits_of(vm.memory) =~= case_start_tape(seed@, task, tc as int));
            assert(vm.st() == init_state(case_start_tape(seed@, task, tc as int)));
            assert(prog.skip(0) =~= prog);
        }
        let stats = vm.run();
        let ghost fin = case_final(seed@, task, tc as int, prog);
        proof {
            assert(vm.st() == fin);
            lemma_exec_cost(init_state(case_start_tape(seed@, task, tc as int)), prog);
        }
        let out_len = ans_mem.len();
        let mut ok = true;
        let mut j2: usize = 0;
        while j2 < out_len
            invariant
                vm.program@ == prog,
                bits_of(vm.memory) == fin.tape,
                bits_of(vm.memory).len() == MEM_SIZE,
                0 <= j2 <= out_len,
                out_len == outb.len(),
                out_len <= 32,
                in_len == inb.len(),
                in_len <= 32,
                bits_of(ans_mem) == outb,
                fin == case_final(seed@, task, tc as int, prog),
                inb == case_input_bits(seed@, task, tc as int),
                outb == case_output_bits(seed@, task, tc as int),
                ok ==> forall|k: int| 0 <= k < j2 ==> fin.tape[in_len + k] == outb[k],
                !ok ==> fin.tape.subrange(in_len as int, in_len + out_len) != outb,
            decreases out_len - j2,
        {
            let tb = vm.memory.get(in_len + j2);
            let eb = ans_mem.get(j2);
            if tb != eb {
                proof {
                    assert(fin.tape.subrange(in_len as int, in_len + out_len)[j2 as int] != outb[
                        j2 as int
                    ]);
                }
                ok = false;
            }
            j2 = j2 + 1;
        }
        proof {
            if ok {
                assert(fin.tape.subrange(in_len as int, in_len + out_len) =~= outb);
            }
            assert(ok == case_passes(seed@, task, tc as int, prog));
        }
        if ok {
            correct = correct + 1;
        }
        case_results.push(ok);
        total = total + 1;
        if stats.runtime > max_runtime {
            max_runtime = stats.runtime;
        }
        if stats.memory > max_memory {
            max_memory = stats.memory;
        }
        proof {
            lemma_total_cost_nonneg(prog);
        }
        tc = tc + 1;
    }
    let verdict = correct == total;
    Ok(
        GradeOutcome {
            correct,
            total,
            verdict,
            max_runtime,
            max_memory,
            inc_count: oc.0,
            cdec_count: oc.1,
            load_count: oc.2,
            inv_count: oc.3,
            case_results,
        },
    )
}

} // verus!
