//! Recognizing the two script encodings and folding their instructions
//! into a compressed stream.

use vstd::prelude::*;
use vstd::arithmetic::div_mod::*;
use vstd::string::StringSliceAdditionalSpecFns;
use vstd::utf8::{encode_utf8, is_ascii_chars, is_ascii_chars_encode_utf8};
use crate::error::Error;
use crate::text::{dec_rep, digit_char, ends_with, str_ends_with};
use crate::vm::{
    Instruction, Instructions, VmState, MEM_SIZE, mem_size, step, exec, obs_eq, no_nulls,
    lemma_exec_snoc, wpk_rep, wpk_text, wpkm_rep, wpkm_text,
};

verus! {

/// A script path must end in one of the two recognized extensions.
pub fn check_valid_extension(path: &str) -> (r: bool)
    ensures
        r == (ends_with(path@, ".wpk"@) || ends_with(path@, ".wpkm"@)),
{
    if str_ends_with(path, ".wpk") {
        true
    } else {
        str_ends_with(path, ".wpkm")
    }
}

/// Two adjacent instructions fold into one: the same pointer kind, and
/// the merged count still fits the count type.
pub open spec fn pair_foldable(a: Instruction, b: Instruction) -> bool {
    ||| (a is Inc && b is Inc && a->Inc_0 + b->Inc_0 <= u32::MAX)
    ||| (a is Cdec && b is Cdec && a->Cdec_0 + b->Cdec_0 <= u32::MAX)
}

/// An instruction folds across one intervening opposite pointer move.
/// The single instruction in the gap is itself pointer-only, so the
/// displacement arithmetic commutes past it.
pub open spec fn gap_foldable(a: Instruction, mid: Instruction, b: Instruction) -> bool {
    ||| (a is Inc && mid is Cdec && b is Inc && a->Inc_0 + b->Inc_0 <= u32::MAX)
    ||| (a is Cdec && mid is Inc && b is Cdec && a->Cdec_0 + b->Cdec_0 <= u32::MAX)
}

/// Folding one newly observed instruction into a stream, in priority
/// order: a Null is discarded; an Inc or Cdec merges into a same-kind
/// last instruction, or into the instruction just before a single
/// opposite pointer move; everything else appends. A merge whose count
/// would overflow the count type appends instead, which is always sound.
pub open spec fn fold_step(s: Seq<Instruction>, new: Instruction) -> Seq<Instruction> {
    let n = s.len() as int;
    if new is Null {
        s
    } else if n >= 1 && pair_foldable(s[n - 1], new) {
        if new is Inc {
            s.update(n - 1, Instruction::Inc((s[n - 1]->Inc_0 + new->Inc_0) as u32))
        } else {
            s.update(n - 1, Instruction::Cdec((s[n - 1]->Cdec_0 + new->Cdec_0) as u32))
        }
    } else if n >= 2 && gap_foldable(s[n - 2], s[n - 1], new) {
        if new is Inc {
            s.update(n - 2, Instruction::Inc((s[n - 2]->Inc_0 + new->Inc_0) as u32))
        } else {
            s.update(n - 2, Instruction::Cdec((s[n - 2]->Cdec_0 + new->Cdec_0) as u32))
        }
    } else {
        s.push(new)
    }
}

/// The stream built by folding each of `ops` in turn into an empty stream.
pub open spec fn build(ops: Seq<Instruction>) -> Seq<Instruction>
    decreases ops.len(),
{
    if ops.len() == 0 {
        Seq::empty()
    } else {
        fold_step(build(ops.drop_last()), ops.last())
    }
}

/// A compressed stream: no Null survives, and re-appending any of its own
/// instructions onto the prefix before it would not merge.
pub open spec fn is_compressed(s: Seq<Instruction>) -> bool {
    &&& no_nulls(s)
    &&& forall|k: int| 1 <= k < s.len() ==> !pair_foldable(s[k - 1], #[trigger] s[k])
    &&& forall|k: int| 2 <= k < s.len() ==> !gap_foldable(s[k - 2], s[k - 1], #[trigger] s[k])
}

/// Folds a new instruction into the stream in place. The stream after the
/// call is exactly `fold_step` of the stream before it.
pub fn push_and_compress_instruction(instructions: &mut Instructions, new_instruction: Instruction)
    ensures
        final (instructions)@ == fold_step(old(instructions)@, new_instruction),
{
    let n = instructions.len();
    match new_instruction {
        Instruction::Null => {},
        Instruction::Inc(x) => {
            if n >= 1 {
                if let Instruction::Inc(y) = instructions[n - 1] {
                    if let Some(v) = y.checked_add(x) {
                        instructions[n - 1] = Instruction::Inc(v);
                        return;
                    }
                }
            }
            if n >= 2 {
                if let Instruction::Cdec(_gap) = instructions[n - 1] {
                    if let Instruction::Inc(m) = instructions[n - 2] {
                        if let Some(v) = m.checked_add(x) {
                            instructions[n - 2] = Instruction::Inc(v);
                            return;
                        }
                    }
                }
            }
            instructions.push(new_instruction);
        },
        Instruction::Cdec(x) => {
            if n >= 1 {
                if let Instruction::Cdec(y) = instructions[n - 1] {
                    if let Some(v) = y.checked_add(x) {
                        instructions[n - 1] = Instruction::Cdec(v);
                        return;
                    }
                }
            }
            if n >= 2 {
                if let Instruction::Inc(_gap) = instructions[n - 1] {
                    if let Instruction::Cdec(m) = instructions[n - 2] {
                        if let Some(v) = m.checked_add(x) {
                            instructions[n - 2] = Instruction::Cdec(v);
                            return;
                        }
                    }
                }
            }
            instructions.push(new_instruction);
        },
        Instruction::Load => {
            instructions.push(new_instruction);
        },
        Instruction::Inv => {
            instructions.push(new_instruction);
        },
    }
}

proof fn lemma_mod_then_add(x: int, b: int)
    requires
        0 <= b < mem_size(),
    ensures
        (x % mem_size() + b) % mem_size() == (x + b) % mem_size(),
{
    lemma_add_mod_noop(x, b, mem_size());
    lemma_small_mod(b as nat, mem_size() as nat);
}

proof fn lemma_mod_then_sub(x: int, b: int)
    requires
        0 <= b < mem_size(),
    ensures
        (x % mem_size() - b) % mem_size() == (x - b) % mem_size(),
{
    lemma_sub_mod_noop(x, b, mem_size());
    lemma_small_mod(b as nat, mem_size() as nat);
}

/// Stepping two observably equal states leaves them observably equal: a
/// step never reads the excursion bounds.
proof fn lemma_step_obs_congruence(a: VmState, b: VmState, i: Instruction)
    requires
        obs_eq(a, b),
    ensures
        obs_eq(step(a, i), step(b, i)),
{
}

/// One folding step preserves observable behaviour: running the folded
/// stream from any state agrees with running the old stream and then the
/// new instruction alone.
pub proof fn lemma_fold_step_equiv(s0: VmState, v: Seq<Instruction>, i: Instruction)
    ensures
        obs_eq(exec(s0, fold_step(v, i)), step(exec(s0, v), i)),
{
    let n = v.len() as int;
    if i is Null {
    } else if n >= 1 && pair_foldable(v[n - 1], i) {
        let prev = v[n - 1];
        let w = v.drop_last();
        assert(v =~= w.push(prev));
        lemma_exec_snoc(s0, w, prev);
        let e = exec(s0, w);
        if i is Inc {
            let merged = Instruction::Inc((prev->Inc_0 + i->Inc_0) as u32);
            assert(fold_step(v, i) =~= w.push(merged));
            lemma_exec_snoc(s0, w, merged);
            lemma_mod_then_add(e.ptr + prev->Inc_0, i->Inc_0 as int);
        } else {
            let merged = Instruction::Cdec((prev->Cdec_0 + i->Cdec_0) as u32);
            assert(fold_step(v, i) =~= w.push(merged));
            lemma_exec_snoc(s0, w, merged);
            if e.reg {
                lemma_mod_then_sub(e.ptr - prev->Cdec_0, i->Cdec_0 as int);
            }
        }
    } else if n >= 2 && gap_foldable(v[n - 2], v[n - 1], i) {
        let a = v[n - 2];
        let mid = v[n - 1];
        let w = v.drop_last().drop_last();
        assert(v =~= w.push(a).push(mid));
        lemma_exec_snoc(s0, w.push(a), mid);
        lemma_exec_snoc(s0, w, a);
        let e = exec(s0, w);
        if i is Inc {
            let merged = Instruction::Inc((a->Inc_0 + i->Inc_0) as u32);
            assert(fold_step(v, i) =~= w.push(merged).push(mid));
            lemma_exec_snoc(s0, w.push(merged), mid);
            lemma_exec_snoc(s0, w, merged);
            let p = e.ptr;
            let m = a->Inc_0 as int;
            let x = i->Inc_0 as int;
            let k = mid->Cdec_0 as int;
            if e.reg {
                // folded: +(m+x) then -k; unfolded: +m, -k, +x
                lemma_mod_then_sub(p + m + x, k);
                lemma_mod_then_sub(p + m, k);
                lemma_mod_then_add(p + m - k, x);
            } else {
                lemma_mod_then_add(p + m, x);
            }
        } else {
            let merged = Instruction::Cdec((a->Cdec_0 + i->Cdec_0) as u32);
            assert(fold_step(v, i) =~= w.push(merged).push(mid));
            lemma_exec_snoc(s0, w.push(merged), mid);
            lemma_exec_snoc(s0, w, merged);
            let p = e.ptr;
            let m = a->Cdec_0 as int;
            let x = i->Cdec_0 as int;
            let k = mid->Inc_0 as int;
            if e.reg {
                // folded: -(m+x) then +k; unfolded: -m, +k, -x
                lemma_mod_then_add(p - m - x, k);
                lemma_mod_then_add(p - m, k);
                lemma_mod_then_sub(p - m + k, x);
            } else {
                lemma_mod_then_add(p, k);
            }
        }
    } else {
        lemma_exec_snoc(s0, v, i);
    }
}

/// The run of unit instructions a single instruction stands for.
pub open spec fn units_of(i: Instruction) -> Seq<Instruction> {
    match i {
        Instruction::Inc(n) => Seq::new(n as nat, |k: int| Instruction::Inc(1)),
        Instruction::Cdec(n) => Seq::new(n as nat, |k: int| Instruction::Cdec(1)),
        _ => seq![i],
    }
}

proof fn lemma_inc_units(s0: VmState, n: nat)
    requires
        0 <= s0.ptr < mem_size(),
        n <= u32::MAX,
    ensures
        obs_eq(step(s0, Instruction::Inc(n as u32)), exec(s0, Seq::new(n, |k: int| Instruction::Inc(1)))),
    decreases n,
{
    let units = Seq::new(n, |k: int| Instruction::Inc(1));
    if n == 0 {
        lemma_small_mod(s0.ptr as nat, mem_size() as nat);
    } else {
        let prev = Seq::new((n - 1) as nat, |k: int| Instruction::Inc(1));
        assert(units.drop_last() =~= prev);
        lemma_inc_units(s0, (n - 1) as nat);
        lemma_step_obs_congruence(
            step(s0, Instruction::Inc((n - 1) as u32)),
            exec(s0, prev),
            Instruction::Inc(1),
        );
        lemma_mod_then_add(s0.ptr + (n - 1), 1);
    }
}

proof fn lemma_cdec_units(s0: VmState, n: nat)
    requires
        0 <= s0.ptr < mem_size(),
        n <= u32::MAX,
    ensures
        obs_eq(
            step(s0, Instruction::Cdec(n as u32)),
            exec(s0, Seq::new(n, |k: int| Instruction::Cdec(1))),
        ),
    decreases n,
{
    let units = Seq::new(n, |k: int| Instruction::Cdec(1));
    if n == 0 {
        lemma_small_mod(s0.ptr as nat, mem_size() as nat);
    } else {
        let prev = Seq::new((n - 1) as nat, |k: int| Instruction::Cdec(1));
        assert(units.drop_last() =~= prev);
        lemma_cdec_units(s0, (n - 1) as nat);
        lemma_step_obs_congruence(
            step(s0, Instruction::Cdec((n - 1) as u32)),
            exec(s0, prev),
            Instruction::Cdec(1),
        );
        if s0.reg {
            lemma_mod_then_sub(s0.ptr - (n - 1), 1);
        }
    }
}

/// Every instruction behaves observably like the run of unit instructions
/// it stands for: an Inc or Cdec of count n like n unit moves. Together
/// with the folding law, a compressed stream behaves exactly as the
/// uncompressed sequence of unit instructions it represents.
pub proof fn lemma_unit_expansion(s0: VmState, i: Instruction)
    requires
        0 <= s0.ptr < mem_size(),
    ensures
        obs_eq(step(s0, i), exec(s0, units_of(i))),
{
    match i {
        Instruction::Inc(n) => {
            lemma_inc_units(s0, n as nat);
            assert((n as nat) as u32 == n);
            assert(units_of(i) =~= Seq::new(n as nat, |k: int| Instruction::Inc(1)));
        },
        Instruction::Cdec(n) => {
            lemma_cdec_units(s0, n as nat);
            assert((n as nat) as u32 == n);
            assert(units_of(i) =~= Seq::new(n as nat, |k: int| Instruction::Cdec(1)));
        },
        _ => {
            let u = units_of(i);
            assert(u.len() == 1 && u.last() == i);
            assert(u.drop_last() =~= Seq::<Instruction>::empty());
            assert(exec(s0, u) == step(exec(s0, u.drop_last()), i));
        },
    }
}

/// Soundness of repeated folding: the built stream is never longer than
/// the sequence of appends, and running it from any state is observably
/// identical to running the appends as they came.
pub proof fn lemma_compression_sound(s0: VmState, ops: Seq<Instruction>)
    ensures
        build(ops).len() <= ops.len(),
        obs_eq(exec(s0, build(ops)), exec(s0, ops)),
    decreases ops.len(),
{
    if ops.len() > 0 {
        let prefix = ops.drop_last();
        let last = ops.last();
        lemma_compression_sound(s0, prefix);
        lemma_fold_step_equiv(s0, build(prefix), last);
        lemma_step_obs_congruence(exec(s0, build(prefix)), exec(s0, prefix), last);
    }
}

/// Folding one more instruction into a compressed stream leaves it
/// compressed.
proof fn lemma_fold_step_compressed(s: Seq<Instruction>, i: Instruction)
    requires
        is_compressed(s),
    ensures
        is_compressed(fold_step(s, i)),
{
    let n = s.len() as int;
    let r = fold_step(s, i);
    if i is Null {
    } else if n >= 1 && pair_foldable(s[n - 1], i) {
        assert forall|k: int| 1 <= k < r.len() implies !pair_foldable(r[k - 1], #[trigger] r[k]) by {
            if k == n - 1 {
                assert(!pair_foldable(s[k - 1], s[k]));
            }
        }
        assert forall|k: int| 2 <= k < r.len() implies !gap_foldable(
            r[k - 2],
            r[k - 1],
            #[trigger] r[k],
        ) by {
            if k == n - 1 {
                assert(!gap_foldable(s[k - 2], s[k - 1], s[k]));
            }
        }
    } else if n >= 2 && gap_foldable(s[n - 2], s[n - 1], i) {
        assert forall|k: int| 1 <= k < r.len() implies !pair_foldable(r[k - 1], #[trigger] r[k]) by {
            if k == n - 2 {
                assert(!pair_foldable(s[k - 1], s[k]));
            }
            if k == n - 1 {
                assert(!pair_foldable(s[k - 1], s[k]));
            }
        }
        assert forall|k: int| 2 <= k < r.len() implies !gap_foldable(
            r[k - 2],
            r[k - 1],
            #[trigger] r[k],
        ) by {
            if k == n - 2 {
                assert(!gap_foldable(s[k - 2], s[k - 1], s[k]));
            }
            if k == n - 1 {
                assert(!gap_foldable(s[k - 2], s[k - 1], s[k]));
            }
        }
    } else {
        assert forall|k: int| 1 <= k < r.len() implies !pair_foldable(r[k - 1], #[trigger] r[k]) by {
            if k < n {
                assert(!pair_foldable(s[k - 1], s[k]));
            }
        }
        assert forall|k: int| 2 <= k < r.len() implies !gap_foldable(
            r[k - 2],
            r[k - 1],
            #[trigger] r[k],
        ) by {
            if k < n {
                assert(!gap_foldable(s[k - 2], s[k - 1], s[k]));
            }
        }
    }
}

/// Every stream built by folding is compressed; in particular it holds
/// no Null, so it can be finalized and loaded into the engine.
pub proof fn lemma_build_compressed(ops: Seq<Instruction>)
    ensures
        is_compressed(build(ops)),
    decreases ops.len(),
{
    if ops.len() > 0 {
        lemma_build_compressed(ops.drop_last());
        lemma_fold_step_compressed(build(ops.drop_last()), ops.last());
    }
}

/// A compact-form line-noise byte that is skipped.
pub open spec fn is_wpkm_ws(c: u8) -> bool {
    c == ' ' as u8 || c == '\n' as u8 || c == '\t' as u8
}

/// The rest of a compact-form parse from byte `i` on: `ctr` is the
/// pending repetition count, `acc` the stream folded so far. Each
/// recognized instruction is folded into the stream as it is read.
pub open spec fn wpkm_rec(b: Seq<u8>, i: int, ctr: Option<u64>, acc: Seq<Instruction>) -> Result<
    Seq<Instruction>,
    Error,
>
    decreases b.len() - i,
    when 0 <= i <= b.len()
{
    if i >= b.len() {
        match ctr {
            Some(x) => Err(Error::DanglingRepeat { value: x }),
            None => Ok(acc),
        }
    } else {
        let c = b[i];
        if c == '>' as u8 {
            let x = match ctr {
                Some(x) => x,
                None => 1u64,
            };
            if x >= MEM_SIZE {
                Err(Error::RepeatTooLargeAt { value: x, offset: i as usize })
            } else {
                wpkm_rec(b, i + 1, None, fold_step(acc, Instruction::Inc(x as u32)))
            }
        } else if c == '<' as u8 {
            let x = match ctr {
                Some(x) => x,
                None => 1u64,
            };
            if x >= MEM_SIZE {
                Err(Error::RepeatTooLargeAt { value: x, offset: i as usize })
            } else {
                wpkm_rec(b, i + 1, None, fold_step(acc, Instruction::Cdec(x as u32)))
            }
        } else if c == '?' as u8 || c == 'v' as u8 {
            match ctr {
                Some(x) => Err(Error::RepeatOnLoad { value: x, offset: i as usize }),
                None => wpkm_rec(b, i + 1, None, fold_step(acc, Instruction::Load)),
            }
        } else if c == '!' as u8 || c == '^' as u8 {
            match ctr {
                Some(x) => Err(Error::RepeatOnInv { value: x, offset: i as usize }),
                None => wpkm_rec(b, i + 1, None, fold_step(acc, Instruction::Inv)),
            }
        } else if '0' as u8 <= c <= '9' as u8 {
            let d = (c - '0' as u8) as u64;
            match ctr {
                None => wpkm_rec(b, i + 1, Some(d), acc),
                Some(x) => if x * 10 + d > MEM_SIZE {
                    Err(Error::RepeatTooLargeAt { value: (x * 10 + d) as u64, offset: i as usize })
                } else {
                    wpkm_rec(b, i + 1, Some((x * 10 + d) as u64), acc)
                },
            }
        } else if is_wpkm_ws(c) {
            wpkm_rec(b, i + 1, ctr, acc)
        } else {
            Err(Error::InvalidCharacter { offset: i as usize })
        }
    }
}

/// What the compact form denotes: one instruction per marker byte, each
/// folded into the stream in order.
pub open spec fn wpkm_spec(b: Seq<u8>) -> Result<Seq<Instruction>, Error> {
    wpkm_rec(b, 0, None, Seq::empty())
}

/// Parses the compact form: `>` is Inc and `<` is Cdec, `?` or `v` is
/// Load, `!` or `^` is Inv; a preceding decimal run gives the repetition
/// count of the next `>`/`<` only; whitespace is skipped; anything else,
/// a count on Load or Inv, an out-of-range count, or a count left dangling
/// at the end is an error with its byte offset. The stream comes back
/// compressed.
pub fn parse_wpkm_text(text: &str) -> (r: Result<Instructions, Error>)
    ensures
        match r {
            Ok(v) => wpkm_spec(text.spec_bytes()) == Ok::<Seq<Instruction>, Error>(v@)
                && is_compressed(v@),
            Err(e) => wpkm_spec(text.spec_bytes()) == Err::<Seq<Instruction>, Error>(e),
        },
{
    let bytes = text.as_bytes();
    let n = bytes.len();
    let mut instructions: Instructions = Vec::new();
    let mut ctr: Option<u64> = None;
    let mut i: usize = 0;
    while i < n
        invariant
            bytes@ == text.spec_bytes(),
            n == bytes@.len(),
            0 <= i <= n,
            is_compressed(instructions@),
            ctr is Some ==> ctr->0 <= MEM_SIZE,
            wpkm_rec(bytes@, i as int, ctr, instructions@) == wpkm_spec(bytes@),
        decreases n - i,
    {
        let c = bytes[i];
        if c == ('>' as u8) {
            let x = match ctr {
                Some(x) => x,
                None => 1u64,
            };
            if x >= MEM_SIZE {
                return Err(Error::RepeatTooLargeAt { value: x, offset: i });
            }
            proof {
                lemma_fold_step_compressed(instructions@, Instruction::Inc(x as u32));
            }
            push_and_compress_instruction(&mut instructions, Instruction::Inc(x as u32));
            ctr = None;
        } else if c == ('<' as u8) {
            let x = match ctr {
                Some(x) => x,
                None => 1u64,
            };
            if x >= MEM_SIZE {
                return Err(Error::RepeatTooLargeAt { value: x, offset: i });
            }
            proof {
                lemma_fold_step_compressed(instructions@, Instruction::Cdec(x as u32));
            }
            push_and_compress_instruction(&mut instructions, Instruction::Cdec(x as u32));
            ctr = None;
        } else if c == ('?' as u8) || c == ('v' as u8) {
            if let Some(x) = ctr {
                return Err(Error::RepeatOnLoad { value: x, offset: i });
            }
            proof {
                lemma_fold_step_compressed(instructions@, Instruction::Load);
            }
            push_and_compress_instruction(&mut instructions, Instruction::Load);
        } else if c == ('!' as u8) || c == ('^' as u8) {
            if let Some(x) = ctr {
                return Err(Error::RepeatOnInv { value: x, offset: i });
            }
            proof {
                lemma_fold_step_compressed(instructions@, Instruction::Inv);
            }
            push_and_compress_instruction(&mut instructions, Instruction::Inv);
        } else if ('0' as u8) <= c && c <= ('9' as u8) {
            let d = (c - ('0' as u8)) as u64;
            ctr = match ctr {
                None => Some(d),
                Some(x) => {
                    let grown = x * 10 + d;
                    if grown > MEM_SIZE {
                        return Err(Error::RepeatTooLargeAt { value: grown, offset: i });
                    }
                    Some(grown)
                },
            };
        } else if c == (' ' as u8) || c == ('\n' as u8) || c == ('\t' as u8) {
        } else {
            return Err(Error::InvalidCharacter { offset: i });
        }
        i = i + 1;
    }
    match ctr {
        Some(x) => Err(Error::DanglingRepeat { value: x }),
        None => Ok(instructions),
    }
}

/// In-line whitespace of the verbose form: token separators.
pub open spec fn is_line_ws(c: u8) -> bool {
    c == ' ' as u8 || c == '\t' as u8 || c == '\r' as u8
}

/// The first line break at or after `i`, or the end of the text.
pub open spec fn line_end(b: Seq<u8>, i: int) -> int
    decreases b.len() - i,
    when 0 <= i <= b.len()
{
    if i >= b.len() || b[i] == '\n' as u8 {
        i
    } else {
        line_end(b, i + 1)
    }
}

proof fn lemma_line_end_props(b: Seq<u8>, i: int)
    requires
        0 <= i <= b.len(),
    ensures
        i <= line_end(b, i) <= b.len(),
        line_end(b, i) < b.len() ==> b[line_end(b, i)] == '\n' as u8,
        forall|k: int| i <= k < line_end(b, i) ==> b[k] != '\n' as u8,
    decreases b.len() - i,
{
    if i < b.len() && b[i] != '\n' as u8 {
        lemma_line_end_props(b, i + 1);
    }
}

/// The first non-separator position in `i..end`.
pub open spec fn skip_ws(b: Seq<u8>, i: int, end: int) -> int
    decreases end - i,
    when 0 <= i <= end <= b.len()
{
    if i >= end || !is_line_ws(b[i]) {
        i
    } else {
        skip_ws(b, i + 1, end)
    }
}

proof fn lemma_skip_ws_props(b: Seq<u8>, i: int, end: int)
    requires
        0 <= i <= end <= b.len(),
    ensures
        i <= skip_ws(b, i, end) <= end,
        skip_ws(b, i, end) < end ==> !is_line_ws(b[skip_ws(b, i, end)]),
        forall|k: int| i <= k < skip_ws(b, i, end) ==> is_line_ws(b[k]),
    decreases end - i,
{
    if i < end && is_line_ws(b[i]) {
        lemma_skip_ws_props(b, i + 1, end);
    }
}

/// The first separator-or-end position after a token starting at `i`.
pub open spec fn token_end(b: Seq<u8>, i: int, end: int) -> int
    decreases end - i,
    when 0 <= i <= end <= b.len()
{
    if i >= end || is_line_ws(b[i]) {
        i
    } else {
        token_end(b, i + 1, end)
    }
}

proof fn lemma_token_end_props(b: Seq<u8>, i: int, end: int)
    requires
        0 <= i <= end <= b.len(),
    ensures
        i <= token_end(b, i, end) <= end,
        token_end(b, i, end) < end ==> is_line_ws(b[token_end(b, i, end)]),
        forall|k: int| i <= k < token_end(b, i, end) ==> !is_line_ws(b[k]),
    decreases end - i,
{
    if i < end && !is_line_ws(b[i]) {
        lemma_token_end_props(b, i + 1, end);
    }
}

pub open spec fn is_digit(c: u8) -> bool {
    '0' as u8 <= c <= '9' as u8
}

pub open spec fn all_digits(t: Seq<u8>) -> bool {
    forall|k: int| 0 <= k < t.len() ==> is_digit(#[trigger] t[k])
}

/// The number a digit run denotes.
pub open spec fn digits_val(t: Seq<u8>) -> int
    decreases t.len(),
{
    if t.len() == 0 {
        0
    } else {
        digits_val(t.drop_last()) * 10 + (t.last() - '0' as u8)
    }
}

/// What a decimal token denotes as a 64-bit number, if anything.
pub open spec fn parse_u64_spec(t: Seq<u8>) -> Option<u64> {
    if t.len() > 0 && all_digits(t) && digits_val(t) <= u64::MAX {
        Some(digits_val(t) as u64)
    } else {
        None
    }
}

proof fn lemma_digits_val_nonneg(t: Seq<u8>)
    requires
        all_digits(t),
    ensures
        digits_val(t) >= 0,
    decreases t.len(),
{
    if t.len() > 0 {
        assert(all_digits(t.drop_last())) by {
            assert(forall|k: int| 0 <= k < t.len() - 1 ==> t.drop_last()[k] == t[k]);
        }
        lemma_digits_val_nonneg(t.drop_last());
    }
}

proof fn lemma_digits_prefix_le(t: Seq<u8>, j: int)
    requires
        all_digits(t),
        0 <= j <= t.len(),
    ensures
        digits_val(t.take(j)) <= digits_val(t),
    decreases t.len(),
{
    if j == t.len() {
        assert(t.take(j) =~= t);
    } else {
        assert(all_digits(t.drop_last())) by {
            assert(forall|k: int| 0 <= k < t.len() - 1 ==> t.drop_last()[k] == t[k]);
        }
        assert(t.take(j) =~= t.drop_last().take(j));
        lemma_digits_prefix_le(t.drop_last(), j);
        lemma_digits_val_nonneg(t.drop_last());
    }
}

/// Parses the decimal token in `bytes[s..e]`.
fn parse_u64_token(bytes: &[u8], s: usize, e: usize) -> (r: Option<u64>)
    requires
        s <= e <= bytes@.len(),
    ensures
        r == parse_u64_spec(bytes@.subrange(s as int, e as int)),
{
    let ghost t = bytes@.subrange(s as int, e as int);
    if s == e {
        return None;
    }
    let mut acc: u64 = 0;
    let mut k: usize = s;
    while k < e
        invariant
            s <= k <= e <= bytes@.len(),
            s < e,
            t == bytes@.subrange(s as int, e as int),
            all_digits(t.take(k - s)),
            acc == digits_val(t.take(k - s)),
        decreases e - k,
    {
        let c = bytes[k];
        proof {
            assert(t.take(k - s + 1).drop_last() =~= t.take(k - s));
            assert(t.take(k - s + 1).last() == bytes@[k as int]);
        }
        if c < ('0' as u8) || c > ('9' as u8) {
            proof {
                assert(!is_digit(t[k - s]));
            }
            return None;
        }
        let d = (c - ('0' as u8)) as u64;
        let grown = match acc.checked_mul(10) {
            Some(v) => v.checked_add(d),
            None => None,
        };
        match grown {
            Some(v) => {
                acc = v;
            },
            None => {
                proof {
                    if all_digits(t) {
                        lemma_digits_prefix_le(t, k - s + 1);
                    }
                }
                return None;
            },
        }
        k = k + 1;
    }
    proof {
        assert(t.take(e - s) =~= t);
    }
    Some(acc)
}

/// The verbose-form keyword tokens, as bytes.
pub open spec fn inc_token() -> Seq<u8> {
    seq!['I' as u8, 'N' as u8, 'C' as u8]
}

pub open spec fn cdec_token() -> Seq<u8> {
    seq!['C' as u8, 'D' as u8, 'E' as u8, 'C' as u8]
}

pub open spec fn load_token() -> Seq<u8> {
    seq!['L' as u8, 'O' as u8, 'A' as u8, 'D' as u8]
}

pub open spec fn inv_token() -> Seq<u8> {
    seq!['I' as u8, 'N' as u8, 'V' as u8]
}

fn is_inc_token(bytes: &[u8], s: usize, e: usize) -> (r: bool)
    requires
        s <= e <= bytes@.len(),
    ensures
        r == (bytes@.subrange(s as int, e as int) == inc_token()),
{
    let ghost t = bytes@.subrange(s as int, e as int);
    if e - s != 3 {
        proof {
            assert(t.len() != inc_token().len());
        }
        return false;
    }
    let r = bytes[s] == ('I' as u8) && bytes[s + 1] == ('N' as u8) && bytes[s + 2] == ('C' as u8);
    proof {
        if r {
            assert(t =~= inc_token());
        } else {
            assert(t != inc_token());
        }
    }
    r
}

fn is_cdec_token(bytes: &[u8], s: usize, e: usize) -> (r: bool)
    requires
        s <= e <= bytes@.len(),
    ensures
        r == (bytes@.subrange(s as int, e as int) == cdec_token()),
{
    let ghost t = bytes@.subrange(s as int, e as int);
    if e - s != 4 {
        proof {
            assert(t.len() != cdec_token().len());
        }
        return false;
    }
    let r = bytes[s] == ('C' as u8) && bytes[s + 1] == ('D' as u8) && bytes[s + 2] == ('E' as u8)
        && bytes[s + 3] == ('C' as u8);
    proof {
        if r {
            assert(t =~= cdec_token());
        } else {
            assert(t != cdec_token());
        }
    }
    r
}

fn is_load_token(bytes: &[u8], s: usize, e: usize) -> (r: bool)
    requires
        s <= e <= bytes@.len(),
    ensures
        r == (bytes@.subrange(s as int, e as int) == load_token()),
{
    let ghost t = bytes@.subrange(s as int, e as int);
    if e - s != 4 {
        proof {
            assert(t.len() != load_token().len());
        }
        return false;
    }
    let r = bytes[s] == ('L' as u8) && bytes[s + 1] == ('O' as u8) && bytes[s + 2] == ('A' as u8)
        && bytes[s + 3] == ('D' as u8);
    proof {
        if r {
            assert(t =~= load_token());
        } else {
            assert(t != load_token());
        }
    }
    r
}

fn is_inv_token(bytes: &[u8], s: usize, e: usize) -> (r: bool)
    requires
        s <= e <= bytes@.len(),
    ensures
        r == (bytes@.subrange(s as int, e as int) == inv_token()),
{
    let ghost t = bytes@.subrange(s as int, e as int);
    if e - s != 3 {
        proof {
            assert(t.len() != inv_token().len());
        }
        return false;
    }
    let r = bytes[s] == ('I' as u8) && bytes[s + 1] == ('N' as u8) && bytes[s + 2] == ('V' as u8);
    proof {
        if r {
            assert(t =~= inv_token());
        } else {
            assert(t != inv_token());
        }
    }
    r
}

/// What one verbose-form line denotes: nothing (a blank line), a bare
/// keyword, a keyword with a decimal repetition count, or an error
/// carrying the line index.
pub open spec fn wpk_line_spec(b: Seq<u8>, start: int, end: int, line: int) -> Result<
    Instruction,
    Error,
> {
    let t0s = skip_ws(b, start, end);
    if t0s == end {
        Ok(Instruction::Null)
    } else {
        let t0e = token_end(b, t0s, end);
        let tok0 = b.subrange(t0s, t0e);
        let t1s = skip_ws(b, t0e, end);
        if t1s == end {
            if tok0 == inc_token() {
                Ok(Instruction::Inc(1))
            } else if tok0 == cdec_token() {
                Ok(Instruction::Cdec(1))
            } else if tok0 == load_token() {
                Ok(Instruction::Load)
            } else if tok0 == inv_token() {
                Ok(Instruction::Inv)
            } else {
                Err(Error::UnknownInstruction { line: line as usize })
            }
        } else {
            let t1e = token_end(b, t1s, end);
            let tok1 = b.subrange(t1s, t1e);
            if skip_ws(b, t1e, end) != end {
                Err(Error::UnknownInstruction { line: line as usize })
            } else if tok0 == inc_token() || tok0 == cdec_token() {
                match parse_u64_spec(tok1) {
                    None => Err(Error::InvalidNumber { line: line as usize }),
                    Some(x) => if x >= MEM_SIZE {
                        Err(Error::RepetitionTooLarge { value: x, line: line as usize })
                    } else if tok0 == inc_token() {
                        Ok(Instruction::Inc(x as u32))
                    } else {
                        Ok(Instruction::Cdec(x as u32))
                    },
                }
            } else {
                Err(Error::UnknownInstruction { line: line as usize })
            }
        }
    }
}

/// Scans forward from `i` to the first separator-free token end.
fn token_end_exec(bytes: &[u8], i: usize, end: usize) -> (r: usize)
    requires
        i <= end <= bytes@.len(),
    ensures
        r == token_end(bytes@, i as int, end as int),
        i <= r <= end,
{
    proof {
        lemma_token_end_props(bytes@, i as int, end as int);
    }
    let mut k = i;
    while k < end && !(bytes[k] == (' ' as u8) || bytes[k] == ('\t' as u8) || bytes[k] == ('\r'
        as u8))
        invariant
            i <= k <= end <= bytes@.len(),
            forall|j: int| i <= j < k ==> !is_line_ws(bytes@[j]),
        decreases end - k,
    {
        k = k + 1;
    }
    k
}

/// Scans forward from `i` to the first non-separator position.
fn skip_ws_exec(bytes: &[u8], i: usize, end: usize) -> (r: usize)
    requires
        i <= end <= bytes@.len(),
    ensures
        r == skip_ws(bytes@, i as int, end as int),
        i <= r <= end,
{
    proof {
        lemma_skip_ws_props(bytes@, i as int, end as int);
    }
    let mut k = i;
    while k < end && (bytes[k] == (' ' as u8) || bytes[k] == ('\t' as u8) || bytes[k] == ('\r'
        as u8))
        invariant
            i <= k <= end <= bytes@.len(),
            forall|j: int| i <= j < k ==> is_line_ws(bytes@[j]),
        decreases end - k,
    {
        k = k + 1;
    }
    k
}

/// Parses one verbose-form line, `bytes[start..end]`.
fn parse_wpk_line(bytes: &[u8], start: usize, end: usize, line_no: usize) -> (r: Result<
    Instruction,
    Error,
>)
    requires
        start <= end <= bytes@.len(),
    ensures
        r == wpk_line_spec(bytes@, start as int, end as int, line_no as int),
{
    let t0s = skip_ws_exec(bytes, start, end);
    if t0s == end {
        return Ok(Instruction::Null);
    }
    let t0e = token_end_exec(bytes, t0s, end);
    let t1s = skip_ws_exec(bytes, t0e, end);
    if t1s == end {
        if is_inc_token(bytes, t0s, t0e) {
            Ok(Instruction::Inc(1))
        } else if is_cdec_token(bytes, t0s, t0e) {
            Ok(Instruction::Cdec(1))
        } else if is_load_token(bytes, t0s, t0e) {
            Ok(Instruction::Load)
        } else if is_inv_token(bytes, t0s, t0e) {
            Ok(Instruction::Inv)
        } else {
            Err(Error::UnknownInstruction { line: line_no })
        }
    } else {
        let t1e = token_end_exec(bytes, t1s, end);
        let rest = skip_ws_exec(bytes, t1e, end);
        if rest != end {
            return Err(Error::UnknownInstruction { line: line_no });
        }
        let inc = is_inc_token(bytes, t0s, t0e);
        let cdec = is_cdec_token(bytes, t0s, t0e);
        if inc || cdec {
            match parse_u64_token(bytes, t1s, t1e) {
                None => Err(Error::InvalidNumber { line: line_no }),
                Some(x) => {
                    if x >= MEM_SIZE {
                        Err(Error::RepetitionTooLarge { value: x, line: line_no })
                    } else if inc {
                        Ok(Instruction::Inc(x as u32))
                    } else {
                        Ok(Instruction::Cdec(x as u32))
                    }
                },
            }
        } else {
            Err(Error::UnknownInstruction { line: line_no })
        }
    }
}

/// The rest of a verbose-form parse from byte `i` on: one instruction per
/// line, each folded into the stream as it is read.
pub open spec fn wpk_rec(b: Seq<u8>, i: int, line: int, acc: Seq<Instruction>) -> Result<
    Seq<Instruction>,
    Error,
>
    decreases b.len() - i,
    when 0 <= i <= b.len()
    via wpk_rec_decreases
{
    if i >= b.len() {
        Ok(acc)
    } else {
        let e = line_end(b, i);
        match wpk_line_spec(b, i, e, line) {
            Err(err) => Err(err),
            Ok(inst) => wpk_rec(
                b,
                if e < b.len() {
                    e + 1
                } else {
                    e
                },
                line + 1,
                fold_step(acc, inst),
            ),
        }
    }
}

#[via_fn]
proof fn wpk_rec_decreases(b: Seq<u8>, i: int, line: int, acc: Seq<Instruction>) {
    lemma_line_end_props(b, i);
}

/// What the verbose form denotes.
pub open spec fn wpk_spec(b: Seq<u8>) -> Result<Seq<Instruction>, Error> {
    wpk_rec(b, 0, 0, Seq::empty())
}

/// Parses the verbose form: one instruction per line, tokens INC, CDEC,
/// LOAD and INV, with INC and CDEC optionally taking a decimal repetition
/// count; blank lines are no-ops. Errors carry the line index. The stream
/// comes back compressed.
pub fn parse_wpk_text(text: &str) -> (r: Result<Instructions, Error>)
    ensures
        match r {
            Ok(v) => wpk_spec(text.spec_bytes()) == Ok::<Seq<Instruction>, Error>(v@)
                && is_compressed(v@),
            Err(e) => wpk_spec(text.spec_bytes()) == Err::<Seq<Instruction>, Error>(e),
        },
{
    let bytes = text.as_bytes();
    let n = bytes.len();
    let mut instructions: Instructions = Vec::new();
    let mut i: usize = 0;
    let mut line_idx: usize = 0;
    while i < n
        invariant
            bytes@ == text.spec_bytes(),
            n == bytes@.len(),
            0 <= i <= n,
            line_idx <= i,
            is_compressed(instructions@),
            wpk_rec(bytes@, i as int, line_idx as int, instructions@) == wpk_spec(bytes@),
        decreases n - i,
    {
        proof {
            lemma_line_end_props(bytes@, i as int);
        }
        let mut e = i;
        while e < n && bytes[e] != ('\n' as u8)
            invariant
                i <= e <= n <= bytes@.len(),
                forall|j: int| i <= j < e ==> bytes@[j] != '\n' as u8,
            decreases n - e,
        {
            e = e + 1;
        }
        proof {
            assert(e == line_end(bytes@, i as int));
        }
        let inst = match parse_wpk_line(bytes, i, e, line_idx) {
            Ok(x) => x,
            Err(err) => {
                return Err(err);
            },
        };
        proof {
            lemma_fold_step_compressed(instructions@, inst);
        }
        push_and_compress_instruction(&mut instructions, inst);
        i = if e < n {
            e + 1
        } else {
            e
        };
        line_idx = line_idx + 1;
    }
    Ok(instructions)
}

/// Idempotence: folding an already-compressed stream instruction by
/// instruction reproduces it unchanged.
pub proof fn lemma_compression_idempotent(s: Seq<Instruction>)
    requires
        is_compressed(s),
    ensures
        build(s) == s,
    decreases s.len(),
{
    if s.len() == 0 {
        assert(build(s) =~= s);
    } else {
        let w = s.drop_last();
        assert(is_compressed(w)) by {
            assert(forall|k: int| 0 <= k < w.len() ==> w[k] == s[k]);
        }
        lemma_compression_idempotent(w);
        let n = s.len() as int;
        assert(!(s[n - 1] is Null));
        if n >= 2 {
            assert(!pair_foldable(s[n - 2], s[n - 1]));
        }
        if n >= 3 {
            assert(!gap_foldable(s[n - 3], s[n - 2], s[n - 1]));
        }
        assert(fold_step(w, s.last()) =~= s);
    }
}

/// The bytes of an ASCII character sequence, one byte per character.
pub open spec fn ascii_bytes(cs: Seq<char>) -> Seq<u8> {
    Seq::new(cs.len(), |i: int| cs[i] as u8)
}

/// A decimal rendering is a nonempty ASCII digit run denoting its number.
proof fn lemma_dec_rep_digits(n: nat)
    ensures
        dec_rep(n).len() >= 1,
        all_digits(ascii_bytes(dec_rep(n))),
        digits_val(ascii_bytes(dec_rep(n))) == n,
        is_ascii_chars(dec_rep(n)),
    decreases n,
{
    let t = ascii_bytes(dec_rep(n));
    if n < 10 {
        assert(dec_rep(n) == seq![digit_char(n as int)]);
        assert(t.len() == 1);
        assert(t[0] == digit_char(n as int) as u8);
        assert(is_digit(t[0]));
        assert(t.drop_last() =~= Seq::<u8>::empty());
        assert(digits_val(t) == digits_val(t.drop_last()) * 10 + (t.last() - '0' as u8));
        assert('\0' <= dec_rep(n)[0] <= '\u{7f}');
    } else {
        lemma_dec_rep_digits(n / 10);
        let t0 = ascii_bytes(dec_rep(n / 10));
        assert(dec_rep(n) == dec_rep(n / 10).push(digit_char((n % 10) as int)));
        assert(t.drop_last() =~= t0);
        assert(t.last() == digit_char((n % 10) as int) as u8);
        assert(digits_val(t) == digits_val(t0) * 10 + (t.last() - '0' as u8));
        assert(n / 10 * 10 + n % 10 == n);
        assert forall|k: int| 0 <= k < t.len() implies is_digit(#[trigger] t[k]) by {
            if k < t.len() - 1 {
                assert(t[k] == t0[k]);
                assert(is_digit(t0[k]));
            } else {
                assert(is_digit(t.last()));
            }
        }
        assert forall|k: int|
            0 <= k < dec_rep(n).len() implies '\0' <= #[trigger] dec_rep(n)[k]
            <= '\u{7f}' by {
            if k < dec_rep(n).len() - 1 {
                assert(dec_rep(n)[k] == dec_rep(n / 10)[k]);
            }
        }
    }
}

/// A left fold of `fold_step` over a batch of appends.
spec fn fold_all(acc: Seq<Instruction>, s: Seq<Instruction>) -> Seq<Instruction>
    decreases s.len(),
{
    if s.len() == 0 {
        acc
    } else {
        fold_all(fold_step(acc, s[0]), s.skip(1))
    }
}

proof fn lemma_fold_all_snoc(acc: Seq<Instruction>, s: Seq<Instruction>, x: Instruction)
    ensures
        fold_all(acc, s.push(x)) == fold_step(fold_all(acc, s), x),
    decreases s.len(),
{
    if s.len() == 0 {
        assert(s.push(x)[0] == x);
        assert(s.push(x).skip(1) =~= Seq::<Instruction>::empty());
        assert(fold_all(fold_step(acc, x), Seq::<Instruction>::empty()) == fold_step(acc, x));
    } else {
        assert(s.push(x)[0] == s[0]);
        assert(s.push(x).skip(1) =~= s.skip(1).push(x));
        lemma_fold_all_snoc(fold_step(acc, s[0]), s.skip(1), x);
    }
}

proof fn lemma_fold_all_is_build(s: Seq<Instruction>)
    ensures
        fold_all(Seq::empty(), s) == build(s),
    decreases s.len(),
{
    if s.len() > 0 {
        lemma_fold_all_is_build(s.drop_last());
        lemma_fold_all_snoc(Seq::empty(), s.drop_last(), s.last());
        assert(s.drop_last().push(s.last()) =~= s);
    }
}

/// The compact text of a stream starts with its first instruction's text.
proof fn lemma_wpkm_text_cons(s: Seq<Instruction>)
    requires
        s.len() >= 1,
    ensures
        wpkm_text(s) == wpkm_rep(s[0]) + wpkm_text(s.skip(1)),
    decreases s.len(),
{
    if s.len() == 1 {
        assert(s.drop_last() =~= Seq::<Instruction>::empty());
        assert(s.skip(1) =~= Seq::<Instruction>::empty());
        assert(s.last() == s[0]);
        assert(wpkm_text(s) =~= wpkm_rep(s[0]) + wpkm_text(s.skip(1)));
    } else {
        let dl = s.drop_last();
        lemma_wpkm_text_cons(dl);
        assert(dl[0] == s[0]);
        assert(s.skip(1).drop_last() =~= dl.skip(1));
        assert(s.skip(1).last() == s.last());
        assert(wpkm_text(s.skip(1)) == wpkm_text(dl.skip(1)) + wpkm_rep(s.last()));
        assert((wpkm_rep(s[0]) + wpkm_text(dl.skip(1))) + wpkm_rep(s.last()) =~= wpkm_rep(s[0]) + (
        wpkm_text(dl.skip(1)) + wpkm_rep(s.last())));
    }
}

/// Scanning a digit run accumulates its value as the pending count.
proof fn lemma_wpkm_digit_run(b: Seq<u8>, i: int, acc: Seq<Instruction>, t: Seq<u8>)
    requires
        t.len() >= 1,
        all_digits(t),
        digits_val(t) <= MEM_SIZE,
        0 <= i,
        i + t.len() <= b.len(),
        forall|k: int| 0 <= k < t.len() ==> b[i + k] == t[k],
    ensures
        wpkm_rec(b, i, None, acc) == wpkm_rec(
            b,
            i + t.len(),
            Some((digits_val(t)) as u64),
            acc,
        ),
    decreases t.len(),
{
    lemma_digits_val_nonneg(t);
    if t.len() == 1 {
        assert(is_digit(b[i]));
        assert(t.drop_last() =~= Seq::<u8>::empty());
        assert(digits_val(t) == (t[0] - '0' as u8));
    } else {
        let t0 = t.drop_last();
        assert(all_digits(t0)) by {
            assert(forall|k: int| 0 <= k < t0.len() ==> t0[k] == t[k]);
        }
        lemma_digits_prefix_le(t, t.len() - 1);
        assert(t.take(t.len() - 1) =~= t0);
        lemma_wpkm_digit_run(b, i, acc, t0);
        let j = i + t.len() - 1;
        assert(is_digit(b[j]));
        lemma_digits_val_nonneg(t0);
        assert(digits_val(t) == digits_val(t0) * 10 + (t.last() - '0' as u8));
    }
}

/// Scanning one rendered instruction folds exactly that instruction.
proof fn lemma_wpkm_step_piece(b: Seq<u8>, i: int, acc: Seq<Instruction>, inst: Instruction)
    requires
        !(inst is Null),
        0 <= i,
        i + wpkm_rep(inst).len() <= b.len(),
        forall|k: int|
            0 <= k < wpkm_rep(inst).len() ==> b[i + k] == ascii_bytes(wpkm_rep(inst))[k],
    ensures
        wpkm_rec(b, i, None, acc) == wpkm_rec(
            b,
            i + wpkm_rep(inst).len(),
            None,
            fold_step(acc, inst),
        ),
{
    reveal_strlit(">");
    reveal_strlit("<");
    reveal_strlit("?");
    reveal_strlit("!");
    let rep = wpkm_rep(inst);
    match inst {
        Instruction::Inc(n) => {
            if n == 1 {
                assert(b[i + 0] == ascii_bytes(rep)[0]);
                assert(b[i] == '>' as u8);
            } else {
                lemma_dec_rep_digits(n as nat);
                let t = ascii_bytes(dec_rep(n as nat));
                assert(rep == dec_rep(n as nat) + ">"@);
                assert forall|k: int| 0 <= k < t.len() implies b[i + k] == t[k] by {
                    assert(b[i + k] == ascii_bytes(rep)[k]);
                    assert(rep[k] == dec_rep(n as nat)[k]);
                }
                lemma_wpkm_digit_run(b, i, acc, t);
                assert(b[i + t.len()] == ascii_bytes(rep)[t.len() as int]);
                assert(rep[t.len() as int] == '>');
                assert(b[i + t.len()] == '>' as u8);
            }
        },
        Instruction::Cdec(n) => {
            if n == 1 {
                assert(b[i + 0] == ascii_bytes(rep)[0]);
                assert(b[i] == '<' as u8);
            } else {
                lemma_dec_rep_digits(n as nat);
                let t = ascii_bytes(dec_rep(n as nat));
                assert(rep == dec_rep(n as nat) + "<"@);
                assert forall|k: int| 0 <= k < t.len() implies b[i + k] == t[k] by {
                    assert(b[i + k] == ascii_bytes(rep)[k]);
                    assert(rep[k] == dec_rep(n as nat)[k]);
                }
                lemma_wpkm_digit_run(b, i, acc, t);
                assert(b[i + t.len()] == ascii_bytes(rep)[t.len() as int]);
                assert(rep[t.len() as int] == '<');
                assert(b[i + t.len()] == '<' as u8);
            }
        },
        Instruction::Load => {
            assert(b[i + 0] == ascii_bytes(rep)[0]);
            assert(b[i] == '?' as u8);
        },
        Instruction::Inv => {
            assert(b[i + 0] == ascii_bytes(rep)[0]);
            assert(b[i] == '!' as u8);
        },
        Instruction::Null => {},
    }
}

/// Scanning the rendered text of a finalized stream folds it whole.
proof fn lemma_wpkm_parse_stream(b: Seq<u8>, i: int, acc: Seq<Instruction>, s: Seq<Instruction>)
    requires
        no_nulls(s),
        0 <= i <= b.len(),
        b.len() - i == wpkm_text(s).len(),
        forall|k: int| 0 <= k < wpkm_text(s).len() ==> b[i + k] == ascii_bytes(wpkm_text(s))[k],
    ensures
        wpkm_rec(b, i, None, acc) == Ok::<Seq<Instruction>, Error>(fold_all(acc, s)),
    decreases s.len(),
{
    if s.len() == 0 {
        assert(i == b.len());
    } else {
        lemma_wpkm_text_cons(s);
        let piece = wpkm_rep(s[0]);
        let rest = wpkm_text(s.skip(1));
        assert(forall|k: int| 0 <= k < piece.len() ==> ascii_bytes(wpkm_text(s))[k] == ascii_bytes(
            piece,
        )[k]);
        lemma_wpkm_step_piece(b, i, acc, s[0]);
        assert(forall|k: int|
            0 <= k < rest.len() ==> b[i + piece.len() + k] == ascii_bytes(rest)[k]) by {
            assert(forall|k: int|
                0 <= k < rest.len() ==> ascii_bytes(wpkm_text(s))[piece.len() + k] == ascii_bytes(
                    rest,
                )[k]);
        }
        assert(no_nulls(s.skip(1))) by {
            assert(forall|k: int| 0 <= k < s.skip(1).len() ==> s.skip(1)[k] == s[k + 1]);
        }
        lemma_wpkm_parse_stream(b, i + piece.len(), fold_step(acc, s[0]), s.skip(1));
    }
}

/// Every rendered compact-form character is ASCII.
proof fn lemma_wpkm_text_ascii(s: Seq<Instruction>)
    ensures
        is_ascii_chars(wpkm_text(s)),
    decreases s.len(),
{
    reveal_strlit(">");
    reveal_strlit("<");
    reveal_strlit("?");
    reveal_strlit("!");
    if s.len() == 0 {
    } else {
        lemma_wpkm_text_ascii(s.drop_last());
        let last = s.last();
        assert(is_ascii_chars(wpkm_rep(last))) by {
            match last {
                Instruction::Inc(n) => {
                    if n != 1 {
                        lemma_dec_rep_digits(n as nat);
                    }
                },
                Instruction::Cdec(n) => {
                    if n != 1 {
                        lemma_dec_rep_digits(n as nat);
                    }
                },
                _ => {},
            }
        }
    }
}

/// The output encoding inverts parsing at the compressed-instruction
/// granularity: re-parsing a serialized compressed stream yields the
/// identical instruction sequence.
pub proof fn lemma_wpkm_round_trip(s: Seq<Instruction>)
    requires
        is_compressed(s),
    ensures
        wpkm_spec(encode_utf8(wpkm_text(s))) == Ok::<Seq<Instruction>, Error>(s),
{
    lemma_wpkm_text_ascii(s);
    is_ascii_chars_encode_utf8(wpkm_text(s));
    let b = encode_utf8(wpkm_text(s));
    assert(forall|k: int|
        0 <= k < wpkm_text(s).len() ==> b[k] == ascii_bytes(wpkm_text(s))[k]);
    lemma_wpkm_parse_stream(b, 0, Seq::empty(), s);
    lemma_fold_all_is_build(s);
    lemma_compression_idempotent(s);
}

proof fn lemma_skip_ws_is(b: Seq<u8>, i: int, end: int, j: int)
    requires
        0 <= i <= j <= end <= b.len(),
        forall|k: int| i <= k < j ==> is_line_ws(#[trigger] b[k]),
        j < end ==> !is_line_ws(b[j]),
    ensures
        skip_ws(b, i, end) == j,
{
    lemma_skip_ws_props(b, i, end);
    let t = skip_ws(b, i, end);
    if t < j {
        assert(is_line_ws(b[t]));
    }
    if t > j {
        assert(is_line_ws(b[j]));
    }
}

proof fn lemma_token_end_is(b: Seq<u8>, i: int, end: int, j: int)
    requires
        0 <= i <= j <= end <= b.len(),
        forall|k: int| i <= k < j ==> !is_line_ws(#[trigger] b[k]),
        j < end ==> is_line_ws(b[j]),
    ensures
        token_end(b, i, end) == j,
{
    lemma_token_end_props(b, i, end);
    let t = token_end(b, i, end);
    if t < j {
        assert(!is_line_ws(b[t]));
    }
    if t > j {
        assert(!is_line_ws(b[j]));
    }
}

proof fn lemma_line_end_is(b: Seq<u8>, i: int, j: int)
    requires
        0 <= i <= j <= b.len(),
        forall|k: int| i <= k < j ==> b[k] != '\n' as u8,
        j < b.len() ==> b[j] == '\n' as u8,
    ensures
        line_end(b, i) == j,
{
    lemma_line_end_props(b, i);
    let t = line_end(b, i);
    if t < j {
        assert(b[t] != '\n' as u8);
    }
    if t > j {
        assert(b[j] != '\n' as u8);
    }
}

/// One rendered verbose-form line breaks exactly at its own newline and
/// parses back to its instruction.
proof fn lemma_wpk_line_piece(b: Seq<u8>, i: int, inst: Instruction, line: int)
    requires
        !(inst is Null),
        0 <= i,
        i + wpk_rep(inst).len() <= b.len(),
        forall|k: int| 0 <= k < wpk_rep(inst).len() ==> b[i + k] == ascii_bytes(wpk_rep(inst))[k],
    ensures
        line_end(b, i) == i + wpk_rep(inst).len() - 1,
        wpk_line_spec(b, i, i + wpk_rep(inst).len() - 1, line) == Ok::<Instruction, Error>(inst),
{
    reveal_strlit("INC\n");
    reveal_strlit("CDEC\n");
    reveal_strlit("LOAD\n");
    reveal_strlit("INV\n");
    reveal_strlit("INC ");
    reveal_strlit("CDEC ");
    reveal_strlit("\n");
    let rep = wpk_rep(inst);
    let len = rep.len() as int;
    let e = i + len - 1;
    assert forall|k: int| i <= k < i + len implies b[k] == rep[k - i] as u8 by {
        assert(b[i + (k - i)] == ascii_bytes(rep)[k - i]);
    }
    match inst {
        Instruction::Inc(n) => {
            if n == 1 {
                assert(rep[0] == 'I' && rep[1] == 'N' && rep[2] == 'C' && rep[3] == '\n');
                assert forall|k: int| i <= k < e implies b[k] != '\n' as u8 && !is_line_ws(
                    b[k],
                ) by {
                    assert(b[k] == rep[k - i] as u8);
                }
                lemma_line_end_is(b, i, e);
                lemma_skip_ws_is(b, i, e, i);
                lemma_token_end_is(b, i, e, e);
                assert(b.subrange(i, e) =~= inc_token());
            } else {
                lemma_dec_rep_digits(n as nat);
                let digits = dec_rep(n as nat);
                let t = ascii_bytes(digits);
                let d = digits.len() as int;
                assert(rep == "INC "@ + digits + "\n"@);
                assert(len == 4 + d + 1);
                assert(rep[0] == 'I' && rep[1] == 'N' && rep[2] == 'C' && rep[3] == ' ');
                assert(rep[len - 1] == '\n');
                assert forall|k: int| i <= k < e implies b[k] != '\n' as u8 by {
                    let k0 = k - i;
                    assert(b[k] == rep[k0] as u8);
                    if 4 <= k0 < 4 + d {
                        assert(rep[k0] == digits[k0 - 4]);
                        assert(t[k0 - 4] == digits[k0 - 4] as u8);
                        assert(is_digit(t[k0 - 4]));
                    }
                }
                assert forall|k: int| i + 4 <= k < e implies !is_line_ws(b[k]) by {
                    let k0 = k - i;
                    assert(b[k] == rep[k0] as u8);
                    assert(rep[k0] == digits[k0 - 4]);
                    assert(t[k0 - 4] == digits[k0 - 4] as u8);
                    assert(is_digit(t[k0 - 4]));
                }
                assert forall|k: int| i <= k < i + 3 implies !is_line_ws(b[k]) by {
                    assert(b[k] == rep[k - i] as u8);
                }
                assert(b[i + 3] == ' ' as u8 && is_line_ws(b[i + 3]));
                lemma_line_end_is(b, i, e);
                lemma_skip_ws_is(b, i, e, i);
                lemma_token_end_is(b, i, e, i + 3);
                lemma_skip_ws_is(b, i + 3, e, i + 4);
                lemma_token_end_is(b, i + 4, e, e);
                assert(b.subrange(i, i + 3) =~= inc_token());
                assert(b.subrange(i + 4, e) =~= t);
                assert(parse_u64_spec(t) == Some(n as u64));
            }
        },
        Instruction::Cdec(n) => {
            if n == 1 {
                assert(rep[0] == 'C' && rep[1] == 'D' && rep[2] == 'E' && rep[3] == 'C' && rep[4]
                    == '\n');
                assert forall|k: int| i <= k < e implies b[k] != '\n' as u8 && !is_line_ws(
                    b[k],
                ) by {
                    assert(b[k] == rep[k - i] as u8);
                }
                lemma_line_end_is(b, i, e);
                lemma_skip_ws_is(b, i, e, i);
                lemma_token_end_is(b, i, e, e);
                assert(b.subrange(i, e) =~= cdec_token());
                assert(b.subrange(i, e) != inc_token());
            } else {
                lemma_dec_rep_digits(n as nat);
                let digits = dec_rep(n as nat);
                let t = ascii_bytes(digits);
                let d = digits.len() as int;
                assert(rep == "CDEC "@ + digits + "\n"@);
                assert(len == 5 + d + 1);
                assert(rep[0] == 'C' && rep[1] == 'D' && rep[2] == 'E' && rep[3] == 'C' && rep[4]
                    == ' ');
                assert(rep[len - 1] == '\n');
                assert forall|k: int| i <= k < e implies b[k] != '\n' as u8 by {
                    let k0 = k - i;
                    assert(b[k] == rep[k0] as u8);
                    if 5 <= k0 < 5 + d {
                        assert(rep[k0] == digits[k0 - 5]);
                        assert(t[k0 - 5] == digits[k0 - 5] as u8);
                        assert(is_digit(t[k0 - 5]));
                    }
                }
                assert forall|k: int| i + 5 <= k < e implies !is_line_ws(b[k]) by {
                    let k0 = k - i;
                    assert(b[k] == rep[k0] as u8);
                    assert(rep[k0] == digits[k0 - 5]);
                    assert(t[k0 - 5] == digits[k0 - 5] as u8);
                    assert(is_digit(t[k0 - 5]));
                }
                assert forall|k: int| i <= k < i + 4 implies !is_line_ws(b[k]) by {
                    assert(b[k] == rep[k - i] as u8);
                }
                assert(b[i + 4] == ' ' as u8 && is_line_ws(b[i + 4]));
                lemma_line_end_is(b, i, e);
                lemma_skip_ws_is(b, i, e, i);
                lemma_token_end_is(b, i, e, i + 4);
                lemma_skip_ws_is(b, i + 4, e, i + 5);
                lemma_token_end_is(b, i + 5, e, e);
                assert(b.subrange(i, i + 4) =~= cdec_token());
                assert(b.subrange(i, i + 4) != inc_token());
                assert(b.subrange(i + 5, e) =~= t);
                assert(parse_u64_spec(t) == Some(n as u64));
            }
        },
        Instruction::Load => {
            assert(rep[0] == 'L' && rep[1] == 'O' && rep[2] == 'A' && rep[3] == 'D' && rep[4]
                == '\n');
            assert forall|k: int| i <= k < e implies b[k] != '\n' as u8 && !is_line_ws(b[k]) by {
                assert(b[k] == rep[k - i] as u8);
            }
            lemma_line_end_is(b, i, e);
            lemma_skip_ws_is(b, i, e, i);
            lemma_token_end_is(b, i, e, e);
            assert(b.subrange(i, e) =~= load_token());
            assert(b.subrange(i, e) != inc_token());
            assert(b.subrange(i, e) != cdec_token());
        },
        Instruction::Inv => {
            assert(rep[0] == 'I' && rep[1] == 'N' && rep[2] == 'V' && rep[3] == '\n');
            assert forall|k: int| i <= k < e implies b[k] != '\n' as u8 && !is_line_ws(b[k]) by {
                assert(b[k] == rep[k - i] as u8);
            }
            lemma_line_end_is(b, i, e);
            lemma_skip_ws_is(b, i, e, i);
            lemma_token_end_is(b, i, e, e);
            assert(b.subrange(i, e) =~= inv_token());
            assert(b.subrange(i, e) != inc_token());
            assert(b.subrange(i, e) != cdec_token());
            assert(b.subrange(i, e) != load_token());
        },
        Instruction::Null => {},
    }
}

/// The verbose text of a stream starts with its first instruction's line.
proof fn lemma_wpk_text_cons(s: Seq<Instruction>)
    requires
        s.len() >= 1,
    ensures
        wpk_text(s) == wpk_rep(s[0]) + wpk_text(s.skip(1)),
    decreases s.len(),
{
    if s.len() == 1 {
        assert(s.drop_last() =~= Seq::<Instruction>::empty());
        assert(s.skip(1) =~= Seq::<Instruction>::empty());
        assert(s.last() == s[0]);
        assert(wpk_text(s) =~= wpk_rep(s[0]) + wpk_text(s.skip(1)));
    } else {
        let dl = s.drop_last();
        lemma_wpk_text_cons(dl);
        assert(dl[0] == s[0]);
        assert(s.skip(1).drop_last() =~= dl.skip(1));
        assert(s.skip(1).last() == s.last());
        assert(wpk_text(s.skip(1)) == wpk_text(dl.skip(1)) + wpk_rep(s.last()));
        assert((wpk_rep(s[0]) + wpk_text(dl.skip(1))) + wpk_rep(s.last()) =~= wpk_rep(s[0]) + (
        wpk_text(dl.skip(1)) + wpk_rep(s.last())));
    }
}

/// Scanning the rendered verbose text of a finalized stream folds it
/// whole, line by line.
proof fn lemma_wpk_parse_stream(b: Seq<u8>, i: int, line: int, acc: Seq<Instruction>, s: Seq<
    Instruction,
>)
    requires
        no_nulls(s),
        0 <= i <= b.len(),
        b.len() - i == wpk_text(s).len(),
        forall|k: int| 0 <= k < wpk_text(s).len() ==> b[i + k] == ascii_bytes(wpk_text(s))[k],
    ensures
        wpk_rec(b, i, line, acc) == Ok::<Seq<Instruction>, Error>(fold_all(acc, s)),
    decreases s.len(),
{
    if s.len() == 0 {
        assert(i == b.len());
    } else {
        lemma_wpk_text_cons(s);
        let piece = wpk_rep(s[0]);
        let rest = wpk_text(s.skip(1));
        assert(piece.len() >= 1) by {
            reveal_strlit("INC\n");
            reveal_strlit("CDEC\n");
            reveal_strlit("LOAD\n");
            reveal_strlit("INV\n");
            reveal_strlit("INC ");
            reveal_strlit("CDEC ");
            reveal_strlit("\n");
            match s[0] {
                Instruction::Inc(n) => {
                    if n != 1 {
                        lemma_dec_rep_digits(n as nat);
                    }
                },
                Instruction::Cdec(n) => {
                    if n != 1 {
                        lemma_dec_rep_digits(n as nat);
                    }
                },
                _ => {},
            }
        }
        assert forall|k: int| 0 <= k < piece.len() implies b[i + k] == ascii_bytes(piece)[k] by {
            assert(b[i + k] == ascii_bytes(wpk_text(s))[k]);
            assert(wpk_text(s)[k] == piece[k]);
        }
        lemma_wpk_line_piece(b, i, s[0], line);
        let e = i + piece.len() - 1;
        assert(e < b.len());
        assert forall|k: int|
            0 <= k < rest.len() implies b[i + piece.len() + k] == ascii_bytes(rest)[k] by {
            assert(b[i + piece.len() + k] == ascii_bytes(wpk_text(s))[piece.len() + k]);
            assert(wpk_text(s)[piece.len() + k] == rest[k]);
        }
        assert(no_nulls(s.skip(1))) by {
            assert(forall|k: int| 0 <= k < s.skip(1).len() ==> s.skip(1)[k] == s[k + 1]);
        }
        lemma_wpk_parse_stream(b, i + piece.len(), line + 1, fold_step(acc, s[0]), s.skip(1));
    }
}

/// Every rendered verbose-form character is ASCII.
proof fn lemma_wpk_text_ascii(s: Seq<Instruction>)
    ensures
        is_ascii_chars(wpk_text(s)),
    decreases s.len(),
{
    reveal_strlit("INC\n");
    reveal_strlit("CDEC\n");
    reveal_strlit("LOAD\n");
    reveal_strlit("INV\n");
    reveal_strlit("INC ");
    reveal_strlit("CDEC ");
    reveal_strlit("\n");
    if s.len() > 0 {
        lemma_wpk_text_ascii(s.drop_last());
        let last = s.last();
        assert(is_ascii_chars(wpk_rep(last))) by {
            match last {
                Instruction::Inc(n) => {
                    if n != 1 {
                        lemma_dec_rep_digits(n as nat);
                    }
                },
                Instruction::Cdec(n) => {
                    if n != 1 {
                        lemma_dec_rep_digits(n as nat);
                    }
                },
                _ => {},
            }
        }
    }
}

/// The verbose output encoding inverts parsing at the
/// compressed-instruction granularity too.
pub proof fn lemma_wpk_round_trip(s: Seq<Instruction>)
    requires
        is_compressed(s),
    ensures
        wpk_spec(encode_utf8(wpk_text(s))) == Ok::<Seq<Instruction>, Error>(s),
{
    lemma_wpk_text_ascii(s);
    is_ascii_chars_encode_utf8(wpk_text(s));
    let b = encode_utf8(wpk_text(s));
    assert(forall|k: int| 0 <= k < wpk_text(s).len() ==> b[k] == ascii_bytes(wpk_text(s))[k]);
    lemma_wpk_parse_stream(b, 0, 0, Seq::empty(), s);
    lemma_fold_all_is_build(s);
    lemma_compression_idempotent(s);
}

} // verus!
