//! The execution engine: a bit-tape virtual machine with one boolean
//! register, and the abstract machine semantics its contracts speak of.
//!
//! The tape has `MEM_SIZE` bits and a physical pointer that wraps modulo
//! that capacity. An unbounded logical pointer mirrors every move without
//! wrapping; its excursion span (max - min + 1, capped at the capacity) is
//! the memory-usage metric. The register is set only by `Load` and read
//! only by `Cdec`'s gate.

use vstd::prelude::*;
use vstd::arithmetic::div_mod::*;
use vstd::pervasive::unreached;
use vstd::string::{StringExecFns, StrSliceExecFns};
use crate::bits::{Bits, bits_of};
use crate::text::{dec_rep, dec_string};

verus! {

pub type VmUsize = u32;

/// Tape capacity in bits; every Inc/Cdec count is strictly below this.
pub const MEM_SIZE: u64 = 0x1_0000_0000;

/// Ceiling on a program's total weighted cost. Every instruction of a
/// program runs exactly once per run, so this caps both the runtime
/// statistic and the logical pointer's excursion, keeping all accounting
/// inside `i64`. Programs over the ceiling are refused up front.
pub const MAX_PROGRAM_COST: u64 = 0x3fff_ffff_ffff_ffff;

/// The instruction alphabet. `Null` is a transient no-op that exists only
/// while parsing and folding; a finalized stream never contains it.
#[derive(Copy, Clone, Debug, PartialEq, Eq, Structural)]
pub enum Instruction {
    Null,
    Inc(VmUsize),
    Cdec(VmUsize),
    Load,
    Inv,
}

pub type Instructions = Vec<Instruction>;

/// The abstract machine state: the tape, the wrapping physical pointer,
/// the unbounded logical pointer with its excursion bounds, the register,
/// and the accumulated runtime cost.
#[verifier::ext_equal]
pub ghost struct VmState {
    pub tape: Seq<bool>,
    pub ptr: int,
    pub lptr: int,
    pub lo: int,
    pub hi: int,
    pub reg: bool,
    pub cost: int,
}

pub open spec fn mem_size() -> int {
    0x1_0000_0000
}

/// The state a run starts from: pointer at zero, register clear, no cost.
pub open spec fn init_state(tape: Seq<bool>) -> VmState {
    VmState { tape, ptr: 0, lptr: 0, lo: 0, hi: 0, reg: false, cost: 0 }
}

/// The unconditional cost of one instruction. `Cdec` charges its full
/// displacement even when the register gate suppresses the move.
pub open spec fn cost_of(i: Instruction) -> int {
    match i {
        Instruction::Null => 0,
        Instruction::Inc(n) => n as int,
        Instruction::Cdec(n) => n as int,
        Instruction::Load => 1,
        Instruction::Inv => 1,
    }
}

/// One step of the abstract machine.
pub open spec fn step(s: VmState, i: Instruction) -> VmState {
    match i {
        Instruction::Null => s,
        Instruction::Inc(n) => VmState {
            ptr: (s.ptr + n) % mem_size(),
            lptr: s.lptr + n,
            hi: if s.lptr + n > s.hi {
                s.lptr + n
            } else {
                s.hi
            },
            cost: s.cost + n,
            ..s
        },
        Instruction::Cdec(n) => if s.reg {
            VmState {
                ptr: (s.ptr - n) % mem_size(),
                lptr: s.lptr - n,
                lo: if s.lptr - n < s.lo {
                    s.lptr - n
                } else {
                    s.lo
                },
                cost: s.cost + n,
                ..s
            }
        } else {
            VmState { cost: s.cost + n, ..s }
        },
        Instruction::Load => VmState { reg: s.tape[s.ptr], cost: s.cost + 1, ..s },
        Instruction::Inv => VmState {
            tape: s.tape.update(s.ptr, !s.tape[s.ptr]),
            cost: s.cost + 1,
            ..s
        },
    }
}

/// Running a whole stream in order from state `s`.
pub open spec fn exec(s: VmState, prog: Seq<Instruction>) -> VmState
    decreases prog.len(),
{
    if prog.len() == 0 {
        s
    } else {
        step(exec(s, prog.drop_last()), prog.last())
    }
}

/// Observable agreement of two states: equal tape, pointers, register and
/// cost. The excursion bounds are excluded: folding may reorder pointer
/// arithmetic and change the intermediate excursion, never anything a
/// later instruction or the final tape can see.
pub open spec fn obs_eq(a: VmState, b: VmState) -> bool {
    a.tape == b.tape && a.ptr == b.ptr && a.lptr == b.lptr && a.reg == b.reg && a.cost == b.cost
}

/// A finalized stream: no transient `Null` entry survives folding.
pub open spec fn no_nulls(prog: Seq<Instruction>) -> bool {
    forall|k: int| 0 <= k < prog.len() ==> !((#[trigger] prog[k]) is Null)
}

/// The total weighted cost of a stream: the runtime of any complete run.
pub open spec fn total_cost(prog: Seq<Instruction>) -> int
    decreases prog.len(),
{
    if prog.len() == 0 {
        0
    } else {
        total_cost(prog.drop_last()) + cost_of(prog.last())
    }
}

/// Sum of all Inc magnitudes.
pub open spec fn inc_weight(prog: Seq<Instruction>) -> int
    decreases prog.len(),
{
    if prog.len() == 0 {
        0
    } else {
        inc_weight(prog.drop_last()) + (if prog.last() is Inc {
            prog.last()->Inc_0 as int
        } else {
            0
        })
    }
}

/// Sum of all Cdec magnitudes.
pub open spec fn cdec_weight(prog: Seq<Instruction>) -> int
    decreases prog.len(),
{
    if prog.len() == 0 {
        0
    } else {
        cdec_weight(prog.drop_last()) + (if prog.last() is Cdec {
            prog.last()->Cdec_0 as int
        } else {
            0
        })
    }
}

/// Number of Load instructions.
pub open spec fn load_count(prog: Seq<Instruction>) -> int
    decreases prog.len(),
{
    if prog.len() == 0 {
        0
    } else {
        load_count(prog.drop_last()) + (if prog.last() is Load {
            1int
        } else {
            0
        })
    }
}

/// Number of Inv instructions.
pub open spec fn inv_count(prog: Seq<Instruction>) -> int
    decreases prog.len(),
{
    if prog.len() == 0 {
        0
    } else {
        inv_count(prog.drop_last()) + (if prog.last() is Inv {
            1int
        } else {
            0
        })
    }
}

pub proof fn lemma_total_cost_nonneg(prog: Seq<Instruction>)
    ensures
        total_cost(prog) >= 0,
    decreases prog.len(),
{
    if prog.len() > 0 {
        lemma_total_cost_nonneg(prog.drop_last());
    }
}

pub proof fn lemma_total_cost_concat(a: Seq<Instruction>, b: Seq<Instruction>)
    ensures
        total_cost(a + b) == total_cost(a) + total_cost(b),
    decreases b.len(),
{
    if b.len() == 0 {
        assert(a + b =~= a);
    } else {
        assert((a + b).drop_last() =~= a + b.drop_last());
        lemma_total_cost_concat(a, b.drop_last());
    }
}

/// Peeling the next instruction off the remaining suffix.
pub proof fn lemma_total_cost_skip(prog: Seq<Instruction>, k: int)
    requires
        0 <= k < prog.len(),
    ensures
        total_cost(prog.skip(k)) == cost_of(prog[k]) + total_cost(prog.skip(k + 1)),
        total_cost(prog.skip(k + 1)) >= 0,
{
    let one = prog.subrange(k, k + 1);
    assert(prog.skip(k) =~= one + prog.skip(k + 1));
    lemma_total_cost_concat(one, prog.skip(k + 1));
    assert(one.drop_last() =~= Seq::<Instruction>::empty());
    assert(one.last() == prog[k]);
    assert(total_cost(one) == total_cost(one.drop_last()) + cost_of(one.last()));
    assert(total_cost(one) == cost_of(prog[k]));
    lemma_total_cost_nonneg(prog.skip(k + 1));
}

/// The weights split the total cost exactly.
pub proof fn lemma_weights_sum(prog: Seq<Instruction>)
    ensures
        inc_weight(prog) >= 0,
        cdec_weight(prog) >= 0,
        load_count(prog) >= 0,
        inv_count(prog) >= 0,
        inc_weight(prog) + cdec_weight(prog) + load_count(prog) + inv_count(prog) == total_cost(
            prog,
        ),
    decreases prog.len(),
{
    if prog.len() > 0 {
        lemma_weights_sum(prog.drop_last());
    }
}

pub proof fn lemma_exec_snoc(s: VmState, prog: Seq<Instruction>, i: Instruction)
    ensures
        exec(s, prog.push(i)) == step(exec(s, prog), i),
{
    assert(prog.push(i).drop_last() =~= prog);
    assert(prog.push(i).last() == i);
}

/// Extending a subrange by one element on the right.
proof fn lemma_subrange_snoc(s: Seq<Instruction>, a: int, b: int)
    requires
        0 <= a <= b < s.len(),
    ensures
        s.subrange(a, b + 1) == s.subrange(a, b).push(s[b]),
{
    assert(s.subrange(a, b + 1) =~= s.subrange(a, b).push(s[b]));
}

/// A run's cost is the stream's total weighted cost, whatever the tape.
pub proof fn lemma_exec_cost(s: VmState, prog: Seq<Instruction>)
    ensures
        exec(s, prog).cost == s.cost + total_cost(prog),
    decreases prog.len(),
{
    if prog.len() > 0 {
        lemma_exec_cost(s, prog.drop_last());
    }
}

/// The wrapping and logical pointers of the original engine.
pub struct MemoryPointer {
    pub ptr: VmUsize,
    pub ptr_i: i64,
    pub ptr_lb: i64,
    pub ptr_ub: i64,
}

impl MemoryPointer {
    pub fn new() -> (r: Self)
        ensures
            r.ptr == 0 && r.ptr_i == 0 && r.ptr_lb == 0 && r.ptr_ub == 0,
    {
        Self { ptr: 0, ptr_i: 0, ptr_lb: 0, ptr_ub: 0 }
    }

    pub fn reset(&mut self)
        ensures
            final (self).ptr == 0 && final (self).ptr_i == 0 && final (self).ptr_lb == 0
                && final (self).ptr_ub == 0,
    {
        self.ptr = 0;
        self.ptr_i = 0;
        self.ptr_lb = 0;
        self.ptr_ub = 0;
    }

    /// Move right: the physical pointer wraps, the logical one does not.
    pub fn inc(&mut self, x: VmUsize)
        requires
            old(self).ptr_i + x <= i64::MAX,
        ensures
            final (self).ptr as int == (old(self).ptr + x) % mem_size(),
            final (self).ptr_i == old(self).ptr_i + x,
            final (self).ptr_lb == old(self).ptr_lb,
            final (self).ptr_ub == if old(self).ptr_i + x > old(self).ptr_ub {
                old(self).ptr_i + x
            } else {
                old(self).ptr_ub as int
            },
    {
        proof {
            lemma_wrap_add_is_mod(self.ptr, x);
        }
        self.ptr = self.ptr.wrapping_add(x);
        self.ptr_i = self.ptr_i + (x as i64);
        if self.ptr_i > self.ptr_ub {
            self.ptr_ub = self.ptr_i;
        }
    }

    /// Move left: the mirror of `inc`.
    pub fn dec(&mut self, x: VmUsize)
        requires
            old(self).ptr_i - x >= i64::MIN,
        ensures
            final (self).ptr as int == (old(self).ptr - x) % mem_size(),
            final (self).ptr_i == old(self).ptr_i - x,
            final (self).ptr_ub == old(self).ptr_ub,
            final (self).ptr_lb == if old(self).ptr_i - x < old(self).ptr_lb {
                old(self).ptr_i - x
            } else {
                old(self).ptr_lb as int
            },
    {
        proof {
            lemma_wrap_sub_is_mod(self.ptr, x);
        }
        self.ptr = self.ptr.wrapping_sub(x);
        self.ptr_i = self.ptr_i - (x as i64);
        if self.ptr_i < self.ptr_lb {
            self.ptr_lb = self.ptr_i;
        }
    }

    /// The excursion span: max - min + 1, capped at the tape capacity.
    pub fn span(&self) -> (r: i64)
        requires
            self.ptr_lb <= 0 <= self.ptr_ub,
            self.ptr_ub - self.ptr_lb + 1 <= i64::MAX,
        ensures
            r == spec_span(self.ptr_lb as int, self.ptr_ub as int),
    {
        let d = self.ptr_ub - self.ptr_lb + 1;
        if d < (MEM_SIZE as i64) {
            d
        } else {
            MEM_SIZE as i64
        }
    }
}

/// Excursion span of the bounds `lo..=hi`, capped at the capacity.
pub open spec fn spec_span(lo: int, hi: int) -> int {
    if hi - lo + 1 < mem_size() {
        hi - lo + 1
    } else {
        mem_size()
    }
}

proof fn lemma_wrap_add_is_mod(p: u32, x: u32)
    ensures
        vstd::wrapping::u32_specs::wrapping_add(p, x) as int == (p + x) % mem_size(),
{
    if p + x > u32::MAX {
        lemma_mod_sub_multiples_vanish((p + x) as int, mem_size());
        lemma_small_mod((p + x - 0x1_0000_0000) as nat, mem_size() as nat);
    } else {
        lemma_small_mod((p + x) as nat, mem_size() as nat);
    }
}

proof fn lemma_wrap_sub_is_mod(p: u32, x: u32)
    ensures
        vstd::wrapping::u32_specs::wrapping_sub(p, x) as int == (p - x) % mem_size(),
{
    if p - x < 0 {
        lemma_mod_add_multiples_vanish((p - x) as int, mem_size());
        lemma_small_mod((p - x + 0x1_0000_0000) as nat, mem_size() as nat);
    } else {
        lemma_small_mod((p - x) as nat, mem_size() as nat);
    }
}

/// The all-false tape a fresh or reset engine starts with.
pub open spec fn zero_tape() -> Seq<bool> {
    Seq::new(MEM_SIZE as nat, |i: int| false)
}

/// The engine: tape, pointers, compiled program, and run bookkeeping.
/// The program is retained across resets so one compiled stream can run
/// against many test cases.
pub struct Vm {
    pub memory: Bits,
    pub memory_pointer: MemoryPointer,
    pub program: Instructions,
    pub instruction_pointer: usize,
    pub runtime: i64,
    pub halted: bool,
    pub register: bool,
}

/// What a run reports: the total runtime cost and the excursion span.
pub struct RunResult {
    pub runtime: i64,
    pub memory: i64,
}

impl Vm {
    /// The engine state as the abstract machine sees it.
    pub open spec fn st(self) -> VmState {
        VmState {
            tape: bits_of(self.memory),
            ptr: self.memory_pointer.ptr as int,
            lptr: self.memory_pointer.ptr_i as int,
            lo: self.memory_pointer.ptr_lb as int,
            hi: self.memory_pointer.ptr_ub as int,
            reg: self.register,
            cost: self.runtime as int,
        }
    }

    /// Well-formedness: the tape has full capacity, the finalized program
    /// holds no Null and stays under the cost ceiling, the halt flag
    /// mirrors the instruction pointer, and the pointer bookkeeping is
    /// bounded by the runtime already charged.
    pub open spec fn wf(self) -> bool {
        &&& bits_of(self.memory).len() == MEM_SIZE
        &&& no_nulls(self.program@)
        &&& total_cost(self.program@) <= MAX_PROGRAM_COST
        &&& self.instruction_pointer <= self.program@.len()
        &&& (self.halted <==> self.instruction_pointer == self.program@.len())
        &&& 0 <= self.runtime
        &&& self.runtime + total_cost(self.program@.skip(self.instruction_pointer as int))
            <= MAX_PROGRAM_COST
        &&& -self.runtime <= self.memory_pointer.ptr_lb <= 0
        &&& 0 <= self.memory_pointer.ptr_ub <= self.runtime
        &&& self.memory_pointer.ptr_lb <= self.memory_pointer.ptr_i <= self.memory_pointer.ptr_ub
    }

    /// A fresh engine over a finalized program: all-zero tape, pointers
    /// at zero, register clear; halted only when the program is empty.
    pub fn new(program: Instructions) -> (r: Vm)
        requires
            no_nulls(program@),
            total_cost(program@) <= MAX_PROGRAM_COST,
        ensures
            r.wf(),
            r.program == program,
            r.instruction_pointer == 0,
            r.st() == init_state(zero_tape()),
    {
        let proglen = program.len();
        let vm = Vm {
            memory: Bits::tape(),
            memory_pointer: MemoryPointer::new(),
            program,
            instruction_pointer: 0,
            halted: proglen == 0,
            runtime: 0,
            register: false,
        };
        proof {
            assert(vm.program@.skip(0) =~= vm.program@);
            assert(bits_of(vm.memory) =~= zero_tape());
            assert(vm.st() =~= init_state(zero_tape()));
        }
        vm
    }

    /// Reset for the next test case: zero the tape, clear every pointer,
    /// the register and the cost, and recompute the halt flag. The
    /// program is kept.
    pub fn reset(&mut self)
        requires
            old(self).wf(),
        ensures
            final (self).wf(),
            final (self).program == old(self).program,
            final (self).instruction_pointer == 0,
            final (self).st() == init_state(zero_tape()),
    {
        self.memory = Bits::tape();
        self.memory_pointer.reset();
        self.instruction_pointer = 0;
        self.halted = self.program.len() == 0;
        self.runtime = 0;
        self.register = false;
        proof {
            assert(self.program@.skip(0) =~= self.program@);
            assert(bits_of(self.memory) =~= zero_tape());
            assert(self.st() =~= init_state(zero_tape()));
        }
    }

    /// Run to completion: steps the machine until it halts and reports
    /// the runtime cost and the excursion span. The final state is the
    /// abstract machine run over the instructions left to execute.
    pub fn run(&mut self) -> (r: RunResult)
        requires
            old(self).wf(),
        ensures
            final (self).wf(),
            final (self).program == old(self).program,
            final (self).halted,
            final (self).st() == exec(
                old(self).st(),
                old(self).program@.skip(old(self).instruction_pointer as int),
            ),
            r.runtime == final (self).st().cost,
            r.memory == spec_span(final (self).st().lo, final (self).st().hi),
    {
        let ghost st0 = self.st();
        let ghost prog = self.program@;
        let ghost ip0 = self.instruction_pointer as int;
        while !self.halted
            invariant
                self.wf(),
                self.program == old(self).program,
                self.program@ == prog,
                0 <= ip0 <= self.instruction_pointer as int <= prog.len(),
                self.st() == exec(st0, prog.subrange(ip0, self.instruction_pointer as int)),
            decreases prog.len() - self.instruction_pointer,
        {
            let ghost pre = self.st();
            let ghost ip = self.instruction_pointer as int;
            proof {
                assert(ip < prog.len());
                lemma_total_cost_skip(prog, ip);
            }
            let i = self.instruction_pointer;
            let n = self.program.len();
            let inst = self.program[i];
            match inst {
                Instruction::Inc(x) => {
                    self.memory_pointer.inc(x);
                    self.runtime = self.runtime + (x as i64);
                },
                Instruction::Cdec(x) => {
                    if self.register {
                        self.memory_pointer.dec(x);
                    }
                    self.runtime = self.runtime + (x as i64);
                },
                Instruction::Load => {
                    let cur = self.memory.get(self.memory_pointer.ptr as usize);
                    self.register = cur;
                    self.runtime = self.runtime + 1;
                },
                Instruction::Inv => {
                    let cur = self.memory.get(self.memory_pointer.ptr as usize);
                    self.memory.set(self.memory_pointer.ptr as usize, !cur);
                    self.runtime = self.runtime + 1;
                },
                Instruction::Null => unreached(),
            }
            proof {
                assert(self.st() =~= step(pre, prog[ip]));
                lemma_subrange_snoc(prog, ip0, ip);
                lemma_exec_snoc(st0, prog.subrange(ip0, ip), prog[ip]);
            }
            self.instruction_pointer = i + 1;
            if self.instruction_pointer == n {
                self.halted = true;
            }
        }
        proof {
            assert(prog.subrange(ip0, prog.len() as int) =~= prog.skip(ip0));
            assert(self.program@.skip(self.instruction_pointer as int)
                =~= Seq::<Instruction>::empty());
        }
        let rt = self.runtime;
        let mem = self.memory_pointer.span();
        RunResult { runtime: rt, memory: mem }
    }

    /// The static weighted opcount of the loaded program, computed from
    /// the program alone: summed Inc magnitudes, summed Cdec magnitudes,
    /// Load count, Inv count.
    pub fn opcount(&self) -> (r: (u64, u64, u64, u64))
        requires
            self.wf(),
        ensures
            r.0 == inc_weight(self.program@),
            r.1 == cdec_weight(self.program@),
            r.2 == load_count(self.program@),
            r.3 == inv_count(self.program@),
    {
        proof {
            lemma_weights_sum(self.program@);
        }
        match stream_opcount(&self.program) {
            Some(c) => c,
            None => unreached(),
        }
    }
}

/// Each of the four weights of any prefix is at most the stream's.
proof fn lemma_weights_prefix(prog: Seq<Instruction>, k: int)
    requires
        0 <= k <= prog.len(),
    ensures
        inc_weight(prog.take(k)) <= inc_weight(prog),
        cdec_weight(prog.take(k)) <= cdec_weight(prog),
        load_count(prog.take(k)) <= load_count(prog),
        inv_count(prog.take(k)) <= inv_count(prog),
    decreases prog.len(),
{
    if k == prog.len() {
        assert(prog.take(k) =~= prog);
    } else {
        assert(prog.take(k) =~= prog.drop_last().take(k));
        lemma_weights_prefix(prog.drop_last(), k);
    }
}

/// The static weighted opcount of a stream, or None when one of the four
/// sums does not fit in 64 bits (possible only past the cost ceiling).
pub fn stream_opcount(program: &Instructions) -> (r: Option<(u64, u64, u64, u64)>)
    ensures
        match r {
            Some(c) => c.0 == inc_weight(program@) && c.1 == cdec_weight(program@) && c.2
                == load_count(program@) && c.3 == inv_count(program@),
            None => total_cost(program@) > u64::MAX,
        },
{
    let mut inc_c: u64 = 0;
    let mut cdec_c: u64 = 0;
    let mut load_c: u64 = 0;
    let mut inv_c: u64 = 0;
    let n = program.len();
    let mut k: usize = 0;
    while k < n
        invariant
            0 <= k <= n,
            n == program@.len(),
            inc_c == inc_weight(program@.take(k as int)),
            cdec_c == cdec_weight(program@.take(k as int)),
            load_c == load_count(program@.take(k as int)),
            inv_c == inv_count(program@.take(k as int)),
        decreases n - k,
    {
        let ghost pk = program@.take(k as int);
        let ghost pk1 = program@.take(k as int + 1);
        proof {
            assert(pk1.drop_last() =~= pk);
            assert(pk1.last() == program@[k as int]);
            lemma_weights_prefix(program@, k as int + 1);
            lemma_weights_sum(program@);
        }
        let inst = program[k];
        match inst {
            Instruction::Inc(x) => {
                match inc_c.checked_add(x as u64) {
                    Some(v) => {
                        inc_c = v;
                    },
                    None => {
                        return None;
                    },
                }
            },
            Instruction::Cdec(x) => {
                match cdec_c.checked_add(x as u64) {
                    Some(v) => {
                        cdec_c = v;
                    },
                    None => {
                        return None;
                    },
                }
            },
            Instruction::Load => {
                match load_c.checked_add(1) {
                    Some(v) => {
                        load_c = v;
                    },
                    None => {
                        return None;
                    },
                }
            },
            Instruction::Inv => {
                match inv_c.checked_add(1) {
                    Some(v) => {
                        inv_c = v;
                    },
                    None => {
                        return None;
                    },
                }
            },
            Instruction::Null => {},
        }
        k = k + 1;
    }
    proof {
        assert(program@.take(n as int) =~= program@);
    }
    Some((inc_c, cdec_c, load_c, inv_c))
}

/// The verbose-form text of one finalized instruction, newline included.
pub open spec fn wpk_rep(i: Instruction) -> Seq<char> {
    match i {
        Instruction::Null => Seq::empty(),
        Instruction::Inc(x) => if x == 1 {
            "INC\n"@
        } else {
            "INC "@ + dec_rep(x as nat) + "\n"@
        },
        Instruction::Cdec(x) => if x == 1 {
            "CDEC\n"@
        } else {
            "CDEC "@ + dec_rep(x as nat) + "\n"@
        },
        Instruction::Load => "LOAD\n"@,
        Instruction::Inv => "INV\n"@,
    }
}

/// The compact-form text of one finalized instruction.
pub open spec fn wpkm_rep(i: Instruction) -> Seq<char> {
    match i {
        Instruction::Null => Seq::empty(),
        Instruction::Inc(x) => if x == 1 {
            ">"@
        } else {
            dec_rep(x as nat) + ">"@
        },
        Instruction::Cdec(x) => if x == 1 {
            "<"@
        } else {
            dec_rep(x as nat) + "<"@
        },
        Instruction::Load => "?"@,
        Instruction::Inv => "!"@,
    }
}

/// The verbose-form text of a whole stream, line after line.
pub open spec fn wpk_text(s: Seq<Instruction>) -> Seq<char>
    decreases s.len(),
{
    if s.len() == 0 {
        Seq::empty()
    } else {
        wpk_text(s.drop_last()) + wpk_rep(s.last())
    }
}

/// The compact-form text of a whole stream.
pub open spec fn wpkm_text(s: Seq<Instruction>) -> Seq<char>
    decreases s.len(),
{
    if s.len() == 0 {
        Seq::empty()
    } else {
        wpkm_text(s.drop_last()) + wpkm_rep(s.last())
    }
}

/// Renders a finalized stream in the verbose form.
pub fn serialize_wpk(instructions: &Instructions) -> (r: String)
    requires
        no_nulls(instructions@),
    ensures
        r@ == wpk_text(instructions@),
{
    let mut out = String::new();
    let n = instructions.len();
    let mut k: usize = 0;
    while k < n
        invariant
            0 <= k <= n,
            n == instructions@.len(),
            no_nulls(instructions@),
            out@ == wpk_text(instructions@.take(k as int)),
        decreases n - k,
    {
        proof {
            assert(instructions@.take(k as int + 1).drop_last() =~= instructions@.take(k as int));
            assert(instructions@.take(k as int + 1).last() == instructions@[k as int]);
        }
        let line = instructions[k].to_wpk_string();
        out.append(line.as_str());
        k = k + 1;
    }
    proof {
        assert(instructions@.take(n as int) =~= instructions@);
    }
    out
}

/// Renders a finalized stream in the compact form.
pub fn serialize_wpkm(instructions: &Instructions) -> (r: String)
    requires
        no_nulls(instructions@),
    ensures
        r@ == wpkm_text(instructions@),
{
    let mut out = String::new();
    let n = instructions.len();
    let mut k: usize = 0;
    while k < n
        invariant
            0 <= k <= n,
            n == instructions@.len(),
            no_nulls(instructions@),
            out@ == wpkm_text(instructions@.take(k as int)),
        decreases n - k,
    {
        proof {
            assert(instructions@.take(k as int + 1).drop_last() =~= instructions@.take(k as int));
            assert(instructions@.take(k as int + 1).last() == instructions@[k as int]);
        }
        let piece = instructions[k].to_wpkm_string();
        out.append(piece.as_str());
        k = k + 1;
    }
    proof {
        assert(instructions@.take(n as int) =~= instructions@);
    }
    out
}

impl Instruction {
    /// Verbose-form rendering, one line per instruction.
    pub fn to_wpk_string(&self) -> (r: String)
        requires
            !(*self is Null),
        ensures
            r@ == wpk_rep(*self),
    {
        match self {
            Instruction::Null => unreached(),
            Instruction::Inc(x) => {
                if *x == 1 {
                    String::from_str("INC\n")
                } else {
                    let mut s = String::from_str("INC ");
                    let d = dec_string(*x as u64);
                    s.append(d.as_str());
                    s.append("\n");
                    proof {
                        assert(s@ =~= "INC "@ + dec_rep(*x as nat) + "\n"@);
                    }
                    s
                }
            },
            Instruction::Cdec(x) => {
                if *x == 1 {
                    String::from_str("CDEC\n")
                } else {
                    let mut s = String::from_str("CDEC ");
                    let d = dec_string(*x as u64);
                    s.append(d.as_str());
                    s.append("\n");
                    proof {
                        assert(s@ =~= "CDEC "@ + dec_rep(*x as nat) + "\n"@);
                    }
                    s
                }
            },
            Instruction::Load => String::from_str("LOAD\n"),
            Instruction::Inv => String::from_str("INV\n"),
        }
    }

    /// Compact-form rendering.
    pub fn to_wpkm_string(&self) -> (r: String)
        requires
            !(*self is Null),
        ensures
            r@ == wpkm_rep(*self),
    {
        match self {
            Instruction::Null => unreached(),
            Instruction::Inc(x) => {
                if *x == 1 {
                    String::from_str(">")
                } else {
                    let mut s = dec_string(*x as u64);
                    s.append(">");
                    s
                }
            },
            Instruction::Cdec(x) => {
                if *x == 1 {
                    String::from_str("<")
                } else {
                    let mut s = dec_string(*x as u64);
                    s.append("<");
                    s
                }
            },
            Instruction::Load => String::from_str("?"),
            Instruction::Inv => String::from_str("!"),
        }
    }
}

} // verus!
