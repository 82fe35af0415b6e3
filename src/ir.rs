//! The intermediate representation: operators lowered to instructions with a
//! count, runs of the same arithmetic instruction fused into one, and branch
//! offsets resolved from machine code sizes.
use vstd::prelude::*;
use crate::brackets::{
    balanced, depth, ends_of, loop_ends, loop_starts, never_negative, open_stack, starts_of,
    Bracket,
};
use crate::program::{brackets_of, Operator, Program};
use vstd::arithmetic::div_mod::{
    lemma_add_mod_noop_right, lemma_mod_add_multiples_vanish, lemma_small_mod,
};

verus! {

/// The machine a backend emits code for.
#[derive(Copy, Clone, Debug, PartialEq, Eq, Structural)]
pub enum Isa {
    X86_64,
    Riscv64,
}

/// One IR instruction. Branch operands are relative byte offsets in the
/// emitted code; zero means not yet resolved.
#[derive(Copy, Clone, Debug, PartialEq, Eq, Structural)]
pub enum IRInsn {
    IncVal(u8),
    DecVal(u8),
    IncPtr(u32),
    DecPtr(u32),
    JumpIfZero(i32),
    JumpIfNonZero(i32),
    GetChar,
    PutChar,
}

/// Number of bytes an instruction takes in the emitted code.
pub open spec fn insn_size(insn: IRInsn, isa: Isa) -> nat {
    match isa {
        Isa::X86_64 => match insn {
            IRInsn::IncVal(_) | IRInsn::DecVal(_) => 3,
            IRInsn::IncPtr(_) | IRInsn::DecPtr(_) => 7,
            IRInsn::JumpIfZero(_) | IRInsn::JumpIfNonZero(_) => 10,
            IRInsn::GetChar => 31,
            IRInsn::PutChar => 28,
        },
        Isa::Riscv64 => match insn {
            IRInsn::IncVal(_) | IRInsn::DecVal(_) => 12,
            IRInsn::IncPtr(_) | IRInsn::DecPtr(_) => 4,
            IRInsn::JumpIfZero(_) | IRInsn::JumpIfNonZero(_) => 8,
            IRInsn::GetChar => 32,
            IRInsn::PutChar => 28,
        },
    }
}

/// The largest branch displacement the ISA's branch encoding can carry, in
/// either direction.
pub open spec fn max_branch(isa: Isa) -> int {
    match isa {
        Isa::X86_64 => 2147483647,
        Isa::Riscv64 => 4094,
    }
}

pub const X86_64_MAX_BRANCH: u64 = 2147483647;

pub const RISCV64_MAX_BRANCH: u64 = 4094;

/// The IR instruction an operator lowers to.
pub open spec fn lower(op: Operator) -> IRInsn {
    match op {
        Operator::IncrementPtr => IRInsn::IncPtr(1),
        Operator::DecrementPtr => IRInsn::DecPtr(1),
        Operator::IncrementValue => IRInsn::IncVal(1),
        Operator::DecrementValue => IRInsn::DecVal(1),
        Operator::JumpIfZero => IRInsn::JumpIfZero(0),
        Operator::JumpIfNonZero => IRInsn::JumpIfNonZero(0),
        Operator::GetChar => IRInsn::GetChar,
        Operator::PutChar => IRInsn::PutChar,
    }
}

pub open spec fn lower_all(code: Seq<Operator>) -> Seq<IRInsn> {
    code.map_values(|o: Operator| lower(o))
}

impl IRInsn {
    /// Which of the eight variants this is.
    pub open spec fn kind(self) -> u8 {
        match self {
            IRInsn::IncVal(_) => 1,
            IRInsn::DecVal(_) => 2,
            IRInsn::IncPtr(_) => 3,
            IRInsn::DecPtr(_) => 4,
            IRInsn::JumpIfZero(_) => 5,
            IRInsn::JumpIfNonZero(_) => 6,
            IRInsn::GetChar => 7,
            IRInsn::PutChar => 8,
        }
    }

    pub open spec fn collapsible(self) -> bool {
        self is IncVal || self is DecVal || self is IncPtr || self is DecPtr
    }

    pub open spec fn bracket(self) -> Bracket {
        match self {
            IRInsn::JumpIfZero(_) => Bracket::Open,
            IRInsn::JumpIfNonZero(_) => Bracket::Close,
            _ => Bracket::Plain,
        }
    }

    /// Two instructions of one arithmetic kind as one: cell counts add modulo
    /// 256, pointer counts add and saturate at `u32::MAX`.
    pub open spec fn merged(self, other: IRInsn) -> IRInsn {
        match (self, other) {
            (IRInsn::IncVal(x), IRInsn::IncVal(y)) => IRInsn::IncVal(((x + y) % 256) as u8),
            (IRInsn::DecVal(x), IRInsn::DecVal(y)) => IRInsn::DecVal(((x + y) % 256) as u8),
            (IRInsn::IncPtr(x), IRInsn::IncPtr(y)) => IRInsn::IncPtr(
                if x + y > u32::MAX {
                    u32::MAX
                } else {
                    (x + y) as u32
                },
            ),
            (IRInsn::DecPtr(x), IRInsn::DecPtr(y)) => IRInsn::DecPtr(
                if x + y > u32::MAX {
                    u32::MAX
                } else {
                    (x + y) as u32
                },
            ),
            _ => self,
        }
    }

    /// Which of the eight variants this is.
    pub fn tag(&self) -> (r: u8)
        ensures
            r == self.kind(),
    {
        match self {
            IRInsn::IncVal(_) => 1,
            IRInsn::DecVal(_) => 2,
            IRInsn::IncPtr(_) => 3,
            IRInsn::DecPtr(_) => 4,
            IRInsn::JumpIfZero(_) => 5,
            IRInsn::JumpIfNonZero(_) => 6,
            IRInsn::GetChar => 7,
            IRInsn::PutChar => 8,
        }
    }

    /// Number of bytes this instruction takes in the code for `isa`.
    pub fn machine_code_size(&self, isa: Isa) -> (r: u8)
        ensures
            r as nat == insn_size(*self, isa),
    {
        match isa {
            Isa::X86_64 => match self {
                IRInsn::IncVal(_) | IRInsn::DecVal(_) => 3,
                IRInsn::IncPtr(_) | IRInsn::DecPtr(_) => 7,
                IRInsn::JumpIfZero(_) | IRInsn::JumpIfNonZero(_) => 10,
                IRInsn::GetChar => 31,
                IRInsn::PutChar => 28,
            },
            Isa::Riscv64 => match self {
                IRInsn::IncVal(_) | IRInsn::DecVal(_) => 12,
                IRInsn::IncPtr(_) | IRInsn::DecPtr(_) => 4,
                IRInsn::JumpIfZero(_) | IRInsn::JumpIfNonZero(_) => 8,
                IRInsn::GetChar => 32,
                IRInsn::PutChar => 28,
            },
        }
    }

    /// Whether runs of this instruction fuse: the four arithmetic kinds.
    pub fn is_collapsible(&self) -> (r: bool)
        ensures
            r == self.collapsible(),
    {
        matches!(self, IRInsn::IncPtr(_) | IRInsn::DecPtr(_) | IRInsn::IncVal(_) | IRInsn::DecVal(_))
    }

    /// Folds `other_insn`, of the same arithmetic kind, into this instruction.
    pub fn collapse_with(&mut self, other_insn: Self)
        requires
            old(self).collapsible(),
            old(self).kind() == other_insn.kind(),
        ensures
            *final(self) == old(self).merged(other_insn),
    {
        match (*self, other_insn) {
            (IRInsn::IncVal(x), IRInsn::IncVal(y)) => {
                *self = IRInsn::IncVal(((x as u16 + y as u16) % 256) as u8);
            },
            (IRInsn::DecVal(x), IRInsn::DecVal(y)) => {
                *self = IRInsn::DecVal(((x as u16 + y as u16) % 256) as u8);
            },
            (IRInsn::IncPtr(x), IRInsn::IncPtr(y)) => {
                *self = IRInsn::IncPtr(x.saturating_add(y));
            },
            (IRInsn::DecPtr(x), IRInsn::DecPtr(y)) => {
                *self = IRInsn::DecPtr(x.saturating_add(y));
            },
            _ => {},
        }
    }
}

impl From<Operator> for IRInsn {
    fn from(value: Operator) -> IRInsn {
        match value {
            Operator::IncrementPtr => IRInsn::IncPtr(1),
            Operator::DecrementPtr => IRInsn::DecPtr(1),
            Operator::IncrementValue => IRInsn::IncVal(1),
            Operator::DecrementValue => IRInsn::DecVal(1),
            Operator::JumpIfZero => IRInsn::JumpIfZero(0),
            Operator::JumpIfNonZero => IRInsn::JumpIfNonZero(0),
            Operator::GetChar => IRInsn::GetChar,
            Operator::PutChar => IRInsn::PutChar,
        }
    }
}

impl vstd::std_specs::convert::FromSpecImpl<Operator> for IRInsn {
    open spec fn obeys_from_spec() -> bool {
        true
    }

    open spec fn from_spec(v: Operator) -> IRInsn {
        lower(v)
    }
}

/// Whether the second instruction folds into the first.
pub open spec fn fuses_with(a: IRInsn, b: IRInsn) -> bool {
    a.collapsible() && a.kind() == b.kind()
}

/// The fused form of an instruction sequence: each maximal run of one
/// arithmetic kind becomes a single instruction carrying the combined count.
pub open spec fn fuse(s: Seq<IRInsn>) -> Seq<IRInsn>
    decreases s.len(),
{
    if s.len() == 0 {
        Seq::empty()
    } else {
        let f = fuse(s.drop_last());
        let x = s.last();
        if f.len() > 0 && fuses_with(f.last(), x) {
            f.drop_last().push(f.last().merged(x))
        } else {
            f.push(x)
        }
    }
}

/// Fuses instructions as they arrive.
pub struct Collapse {
    out: Vec<IRInsn>,
    seen: Ghost<Seq<IRInsn>>,
}

impl Collapse {
    /// The instructions handed in so far.
    pub closed spec fn input(&self) -> Seq<IRInsn> {
        self.seen@
    }

    /// The fused instructions held so far.
    pub closed spec fn output(&self) -> Seq<IRInsn> {
        self.out@
    }

    /// A fuser that has seen nothing yet.
    pub fn new() -> (r: Collapse)
        ensures
            r.input() == Seq::<IRInsn>::empty(),
            r.output() == fuse(r.input()),
    {
        Collapse { out: Vec::new(), seen: Ghost(Seq::empty()) }
    }

    /// Hands in the next instruction: it either folds into the last fused
    /// instruction or follows it.
    pub fn push(&mut self, insn: IRInsn)
        requires
            old(self).output() == fuse(old(self).input()),
        ensures
            final(self).input() == old(self).input().push(insn),
            final(self).output() == fuse(final(self).input()),
    {
        let ghost s = self.seen@.push(insn);
        assert(s.drop_last() =~= self.seen@);
        let n = self.out.len();
        if n > 0 && self.out[n - 1].is_collapsible() && self.out[n - 1].tag() == insn.tag() {
            let mut last = self.out[n - 1];
            last.collapse_with(insn);
            self.out[n - 1] = last;
            assert(self.out@ =~= fuse(s));
        } else {
            self.out.push(insn);
        }
        self.seen = Ghost(s);
    }

    /// The fused instructions.
    pub fn into_vec(self) -> (r: Vec<IRInsn>)
        ensures
            r@ == self.output(),
    {
        self.out
    }
}

/// Instruction sources that can be fused.
pub trait CollapseIR: Sized {
    spec fn insns(&self) -> Seq<IRInsn>;

    /// A fuser that has seen every instruction of `self`.
    fn collapse(self) -> (r: Collapse)
        ensures
            r.input() == self.insns(),
            r.output() == fuse(self.insns()),
    ;
}

impl CollapseIR for Vec<IRInsn> {
    open spec fn insns(&self) -> Seq<IRInsn> {
        self@
    }

    fn collapse(self) -> (r: Collapse) {
        let mut c = Collapse::new();
        let mut i: usize = 0;
        while i < self.len()
            invariant
                i <= self@.len(),
                c.input() == self@.take(i as int),
                c.output() == fuse(c.input()),
            decreases self.len() - i,
        {
            c.push(self[i]);
            assert(self@.take(i + 1) =~= self@.take(i as int).push(self@[i as int]));
            i += 1;
        }
        assert(self@.take(i as int) =~= self@);
        c
    }
}

/// After fusion no two neighbours are arithmetic instructions of one kind.
pub proof fn lemma_fuse_maximal(s: Seq<IRInsn>)
    ensures
        forall|k: int|
            0 <= k < fuse(s).len() - 1 ==> !fuses_with(#[trigger] fuse(s)[k], fuse(s)[k + 1]),
    decreases s.len(),
{
    if s.len() > 0 {
        lemma_fuse_maximal(s.drop_last());
        let f = fuse(s.drop_last());
        let x = s.last();
        if f.len() > 0 && fuses_with(f.last(), x) {
            let g = f.drop_last().push(f.last().merged(x));
            assert(f.last().merged(x).kind() == f.last().kind());
            assert forall|k: int| 0 <= k < g.len() - 1 implies !fuses_with(#[trigger] g[k], g[k + 1]) by {
                assert(g[k] == f[k]);
                if k + 1 < g.len() - 1 {
                    assert(g[k + 1] == f[k + 1]);
                } else {
                    assert(!fuses_with(f[k], f[k + 1]));
                }
            }
        } else {
            let g = f.push(x);
            assert forall|k: int| 0 <= k < g.len() - 1 implies !fuses_with(#[trigger] g[k], g[k + 1]) by {
                assert(g[k] == f[k]);
                if k + 1 < g.len() - 1 {
                    assert(g[k + 1] == f[k + 1]);
                }
            }
        }
    }
}

/// The current cell after an instruction runs on it.
pub open spec fn cell_after(insn: IRInsn, c: u8) -> u8 {
    match insn {
        IRInsn::IncVal(n) => ((c + n) % 256) as u8,
        IRInsn::DecVal(n) => ((c + 256 - n) % 256) as u8,
        _ => c,
    }
}

/// How far an instruction moves the tape pointer.
pub open spec fn ptr_shift(insn: IRInsn) -> int {
    match insn {
        IRInsn::IncPtr(n) => n as int,
        IRInsn::DecPtr(n) => -n,
        _ => 0,
    }
}

/// A fused pair changes the cell as the two did one after the other, and
/// moves the pointer as far as the two did whenever the combined count fits
/// in a `u32`.
#[verifier::rlimit(40)]
pub proof fn lemma_merged_effect(a: IRInsn, b: IRInsn, c: u8)
    requires
        fuses_with(a, b),
    ensures
        cell_after(a.merged(b), c) == cell_after(b, cell_after(a, c)),
        ptr_shift(a) + ptr_shift(b) <= u32::MAX && -(ptr_shift(a) + ptr_shift(b)) <= u32::MAX
            ==> ptr_shift(a.merged(b)) == ptr_shift(a) + ptr_shift(b),
{
    match (a, b) {
        (IRInsn::IncVal(x), IRInsn::IncVal(y)) => {
            lemma_add_mod_noop_right(y as int, c + x, 256);
            lemma_add_mod_noop_right(c as int, x + y, 256);
        },
        (IRInsn::DecVal(x), IRInsn::DecVal(y)) => {
            let t = c + 512 - x - y;
            lemma_add_mod_noop_right(256 - y, c + 256 - x, 256);
            if x + y < 256 {
                lemma_small_mod((x + y) as nat, 256);
                lemma_mod_add_multiples_vanish(t - 256, 256);
            } else {
                lemma_small_mod((x + y - 256) as nat, 256);
                lemma_mod_add_multiples_vanish(x + y - 256, 256);
            }
        },
        _ => {},
    }
}

/// Total size of the machine code for an instruction sequence.
pub open spec fn code_size(s: Seq<IRInsn>, isa: Isa) -> nat
    decreases s.len(),
{
    if s.len() == 0 {
        0
    } else {
        code_size(s.drop_last(), isa) + insn_size(s.last(), isa)
    }
}

/// Byte offset at which the code of instruction `k` begins.
pub open spec fn offset_of(s: Seq<IRInsn>, k: int, isa: Isa) -> nat {
    code_size(s.take(k), isa)
}

/// Size of the code of the instructions in `[i, j)`.
pub open spec fn span(s: Seq<IRInsn>, i: int, j: int, isa: Isa) -> nat {
    code_size(s.subrange(i, j), isa)
}

/// The loop structure of an instruction sequence.
pub open spec fn ir_brackets(s: Seq<IRInsn>) -> Seq<Bracket> {
    s.map_values(|x: IRInsn| x.bracket())
}

/// Every loop's span fits the ISA's branch displacement.
pub open spec fn spans_fit(s: Seq<IRInsn>, isa: Isa) -> bool {
    let ends = loop_ends(ir_brackets(s));
    forall|i: int| #[trigger] ends.contains_key(i) ==> span(s, i, ends[i], isa) <= max_branch(isa)
}

/// The sequence with each branch operand set: a loop start jumps forward by
/// the span from itself to its end, the end jumps back by the same amount.
pub open spec fn resolve(s: Seq<IRInsn>, isa: Isa) -> Seq<IRInsn> {
    let b = ir_brackets(s);
    Seq::new(
        s.len(),
        |k: int|
            match s[k] {
                IRInsn::JumpIfZero(_) => IRInsn::JumpIfZero(span(s, k, loop_ends(b)[k], isa) as i32),
                IRInsn::JumpIfNonZero(_) => IRInsn::JumpIfNonZero(
                    (-span(s, loop_starts(b)[k], k, isa)) as i32,
                ),
                x => x,
            },
    )
}

pub proof fn lemma_code_size_append(a: Seq<IRInsn>, b: Seq<IRInsn>, isa: Isa)
    ensures
        code_size(a + b, isa) == code_size(a, isa) + code_size(b, isa),
    decreases b.len(),
{
    if b.len() > 0 {
        lemma_code_size_append(a, b.drop_last(), isa);
        assert((a + b).drop_last() =~= a + b.drop_last());
    }
}

/// The operand of a branch instruction; zero for any other.
pub open spec fn branch_offset(insn: IRInsn) -> int {
    match insn {
        IRInsn::JumpIfZero(off) => off as int,
        IRInsn::JumpIfNonZero(off) => off as int,
        _ => 0,
    }
}

proof fn lemma_code_size_same_kinds(a: Seq<IRInsn>, b: Seq<IRInsn>, isa: Isa)
    requires
        a.len() == b.len(),
        forall|k: int| 0 <= k < a.len() ==> #[trigger] a[k].kind() == b[k].kind(),
    ensures
        code_size(a, isa) == code_size(b, isa),
    decreases a.len(),
{
    if a.len() > 0 {
        lemma_code_size_same_kinds(a.drop_last(), b.drop_last(), isa);
        assert(a[a.len() - 1].kind() == b[a.len() - 1].kind());
    }
}

/// Resolving changes operands only, so every offset stays where it was.
proof fn lemma_resolve_offsets(s: Seq<IRInsn>, isa: Isa, k: int)
    requires
        0 <= k <= s.len(),
    ensures
        offset_of(resolve(s, isa), k, isa) == offset_of(s, k, isa),
{
    let r = resolve(s, isa);
    assert forall|t: int| 0 <= t < k implies #[trigger] r.take(k)[t].kind() == s.take(k)[t].kind() by {
        assert(r[t].kind() == s[t].kind());
    }
    lemma_code_size_same_kinds(r.take(k), s.take(k), isa);
}

/// After resolution a loop start's operand is the distance from its own code
/// to its matching end's code, and the end's operand the same distance back.
/// Read from the end of the branch (x86-64, `a + size + off`), a start lands
/// just after its end and an end just after its start. Read from the branch
/// itself, which sits at the same place in both (RISC-V, `a + off`), each lands
/// on its partner's branch, which then falls through on the cell just tested.
#[verifier::rlimit(40)]
pub proof fn lemma_branch_targets(s: Seq<IRInsn>, isa: Isa)
    requires
        balanced(ir_brackets(s)),
        spans_fit(s, isa),
    ensures
        forall|i: int|
            #![trigger loop_ends(ir_brackets(s)).contains_key(i)]
            loop_ends(ir_brackets(s)).contains_key(i) ==> {
                let r = resolve(s, isa);
                let j = loop_ends(ir_brackets(s))[i];
                &&& r[i] is JumpIfZero
                &&& r[j] is JumpIfNonZero
                &&& offset_of(r, i, isa) + insn_size(r[i], isa) + branch_offset(r[i]) == offset_of(
                    r,
                    j + 1,
                    isa,
                )
                &&& offset_of(r, j, isa) + insn_size(r[j], isa) + branch_offset(r[j]) == offset_of(
                    r,
                    i + 1,
                    isa,
                )
                &&& offset_of(r, i, isa) + branch_offset(r[i]) == offset_of(r, j, isa)
                &&& offset_of(r, j, isa) + branch_offset(r[j]) == offset_of(r, i, isa)
            },
{
    let b = ir_brackets(s);
    let r = resolve(s, isa);
    crate::brackets::lemma_jump_tables_inverse(b);
    assert forall|i: int| #[trigger] loop_ends(b).contains_key(i) implies {
        let j = loop_ends(b)[i];
        &&& r[i] is JumpIfZero
        &&& r[j] is JumpIfNonZero
        &&& offset_of(r, i, isa) + insn_size(r[i], isa) + branch_offset(r[i]) == offset_of(
            r,
            j + 1,
            isa,
        )
        &&& offset_of(r, j, isa) + insn_size(r[j], isa) + branch_offset(r[j]) == offset_of(
            r,
            i + 1,
            isa,
        )
        &&& offset_of(r, i, isa) + branch_offset(r[i]) == offset_of(r, j, isa)
        &&& offset_of(r, j, isa) + branch_offset(r[j]) == offset_of(r, i, isa)
    } by {
        let j = loop_ends(b)[i];
        assert(b[i] == s[i].bracket());
        assert(b[j] == s[j].bracket());
        let d = span(s, i, j, isa);
        assert(d <= max_branch(isa));
        lemma_resolve_offsets(s, isa, i);
        lemma_resolve_offsets(s, isa, i + 1);
        lemma_resolve_offsets(s, isa, j);
        lemma_resolve_offsets(s, isa, j + 1);
        lemma_code_size_append(s.take(i), s.subrange(i, j), isa);
        assert(s.take(j) =~= s.take(i) + s.subrange(i, j));
        assert(s.take(i + 1).drop_last() =~= s.take(i));
        assert(s.take(j + 1).drop_last() =~= s.take(j));
        assert(r[i] == IRInsn::JumpIfZero(d as i32));
        assert(r[j] == IRInsn::JumpIfNonZero((-d) as i32));
    }
}

proof fn lemma_fuse_depth(s: Seq<IRInsn>)
    ensures
        depth(ir_brackets(fuse(s))) == depth(ir_brackets(s)),
        never_negative(ir_brackets(fuse(s))) == never_negative(ir_brackets(s)),
    decreases s.len(),
{
    if s.len() > 0 {
        let p = s.drop_last();
        let x = s.last();
        let f = fuse(p);
        lemma_fuse_depth(p);
        assert(ir_brackets(s).drop_last() =~= ir_brackets(p));
        if f.len() > 0 && fuses_with(f.last(), x) {
            assert(ir_brackets(fuse(s)) =~= ir_brackets(f));
            assert(ir_brackets(f).drop_last() =~= ir_brackets(f.drop_last()));
        } else {
            assert(ir_brackets(fuse(s)).drop_last() =~= ir_brackets(f));
        }
    }
}

/// Lowering and fusion keep a program's loop structure: the IR of a program
/// with balanced loops has balanced loops.
pub proof fn lemma_lowering_keeps_balance(code: Seq<Operator>)
    ensures
        balanced(ir_brackets(fuse(lower_all(code)))) == balanced(brackets_of(code)),
{
    let l = lower_all(code);
    assert(ir_brackets(l) =~= brackets_of(code));
    lemma_fuse_depth(l);
    crate::brackets::lemma_balanced_depth(ir_brackets(fuse(l)));
    crate::brackets::lemma_balanced_depth(brackets_of(code));
}

/// Why branch operands could not be resolved.
#[derive(Copy, Clone, Debug, PartialEq, Eq, Structural)]
pub enum ResolveError {
    UnbalancedBranches,
    BranchOutOfRange,
}

/// The span of `[i, j)` if it is at most `limit`.
fn branch_span(s: &Vec<IRInsn>, i: usize, j: usize, isa: Isa, limit: u64) -> (r: Option<u64>)
    requires
        i <= j <= s@.len(),
        limit <= u32::MAX,
    ensures
        match r {
            Some(v) => v == span(s@, i as int, j as int, isa) && v <= limit,
            None => span(s@, i as int, j as int, isa) > limit,
        },
{
    let mut sum: u64 = 0;
    let mut k: usize = i;
    while k < j
        invariant
            i <= k <= j <= s@.len(),
            limit <= u32::MAX,
            sum == span(s@, i as int, k as int, isa),
            sum <= limit,
        decreases j - k,
    {
        let size = s[k].machine_code_size(isa) as u64;
        sum = sum + size;
        assert(s@.subrange(i as int, k + 1).drop_last() =~= s@.subrange(i as int, k as int));
        if sum > limit {
            proof {
                lemma_code_size_append(
                    s@.subrange(i as int, k + 1),
                    s@.subrange(k + 1, j as int),
                    isa,
                );
                assert(s@.subrange(i as int, j as int) =~= s@.subrange(i as int, k + 1)
                    + s@.subrange(k + 1, j as int));
            }
            return None;
        }
        k += 1;
    }
    Some(sum)
}

/// The fused instruction sequence of a program.
pub struct IR(pub Vec<IRInsn>);

impl IR {
    /// Lowers each operator and fuses the result.
    pub fn from_program(prog: &Program) -> (r: IR)
        ensures
            r.0@ == fuse(lower_all(prog.code@)),
    {
        let mut lowered: Vec<IRInsn> = Vec::new();
        let mut i: usize = 0;
        while i < prog.code.len()
            invariant
                i <= prog.code@.len(),
                lowered@ == lower_all(prog.code@.take(i as int)),
            decreases prog.code.len() - i,
        {
            lowered.push(IRInsn::from(prog.code[i]));
            assert(lower_all(prog.code@.take(i + 1)) =~= lower_all(prog.code@.take(i as int)).push(
                lower(prog.code@[i as int]),
            ));
            i += 1;
        }
        assert(prog.code@.take(i as int) =~= prog.code@);
        IR(lowered.collapse().into_vec())
    }

    /// Sets every branch operand from the code sizes of `isa`. Nothing changes
    /// when the loops do not pair up or a loop is too long to branch over.
    #[verifier::rlimit(40)]
    pub fn backpatch_jumps(&mut self, isa: Isa) -> (r: Result<(), ResolveError>)
        ensures
            ({
                let s = old(self).0@;
                match r {
                    Ok(()) => balanced(ir_brackets(s)) && spans_fit(s, isa) && final(self).0@
                        == resolve(s, isa),
                    Err(ResolveError::UnbalancedBranches) => !balanced(ir_brackets(s))
                        && final(self).0@ == s,
                    Err(ResolveError::BranchOutOfRange) => balanced(ir_brackets(s)) && !spans_fit(
                        s,
                        isa,
                    ) && final(self).0@ == s,
                }
            }),
    {
        let ghost s = self.0@;
        let ghost b = ir_brackets(s);
        let n = self.0.len();
        let mut partner: Vec<usize> = Vec::new();
        while partner.len() < n
            invariant
                partner@.len() <= n,
            decreases n - partner.len(),
        {
            partner.push(0);
        }
        let mut stack: Vec<usize> = Vec::new();
        let mut pos: usize = 0;
        while pos < n
            invariant
                n == s.len(),
                self.0@ == s,
                b == ir_brackets(s),
                pos <= n,
                partner@.len() == n,
                open_stack(b, pos as nat) == Some(stack@.map_values(|x: usize| x as int)),
                forall|o: int| #[trigger]
                    ends_of(b, pos as nat).contains_key(o) ==> partner@[o] as int == ends_of(
                        b,
                        pos as nat,
                    )[o],
                forall|c: int| #[trigger]
                    starts_of(b, pos as nat).contains_key(c) ==> partner@[c] as int == starts_of(
                        b,
                        pos as nat,
                    )[c],
            decreases n - pos,
        {
            let ghost st = stack@.map_values(|x: usize| x as int);
            proof {
                crate::brackets::lemma_prefix_tables(b, pos as nat);
            }
            assert(b[pos as int] == s[pos as int].bracket());
            match self.0[pos] {
                IRInsn::JumpIfZero(_) => {
                    stack.push(pos);
                    assert(stack@.map_values(|x: usize| x as int) =~= st.push(pos as int));
                    assert(starts_of(b, (pos + 1) as nat) == starts_of(b, pos as nat));
                },
                IRInsn::JumpIfNonZero(_) => {
                    if stack.len() == 0 {
                        proof {
                            assert(open_stack(b, (pos + 1) as nat) is None);
                            crate::brackets::lemma_failure_persists(b, (pos + 1) as nat, b.len());
                        }
                        return Err(ResolveError::UnbalancedBranches);
                    }
                    let open = stack.pop().unwrap();
                    assert(stack@.map_values(|x: usize| x as int) =~= st.drop_last());
                    assert(st[st.len() - 1] == open as int);
                    assert(b[open as int] is Open);
                    let ghost before = partner@;
                    partner[open] = pos;
                    partner[pos] = open;
                    assert forall|c: int| #[trigger]
                        starts_of(b, pos as nat).contains_key(c) implies partner@[c] == before[c] by {
                        assert(b[c] is Close);
                        assert(c < pos);
                    }
                    assert(ends_of(b, (pos + 1) as nat) == ends_of(b, pos as nat).insert(
                        open as int,
                        pos as int,
                    ));
                    assert(starts_of(b, (pos + 1) as nat) == starts_of(b, pos as nat).insert(
                        pos as int,
                        open as int,
                    ));
                },
                _ => {
                    assert(starts_of(b, (pos + 1) as nat) == starts_of(b, pos as nat));
                },
            }
            pos += 1;
        }
        if stack.len() > 0 {
            assert(stack@.map_values(|x: usize| x as int).len() > 0);
            return Err(ResolveError::UnbalancedBranches);
        }
        assert(stack@.map_values(|x: usize| x as int) =~= Seq::<int>::empty());
        proof {
            crate::brackets::lemma_jump_tables_inverse(b);
        }
        let limit = match isa {
            Isa::X86_64 => X86_64_MAX_BRANCH,
            Isa::Riscv64 => RISCV64_MAX_BRANCH,
        };
        let ghost ends = loop_ends(b);
        let ghost starts = loop_starts(b);
        let mut out: Vec<IRInsn> = Vec::new();
        let mut k: usize = 0;
        while k < n
            invariant
                n == s.len(),
                self.0@ == s,
                b == ir_brackets(s),
                balanced(b),
                ends == loop_ends(b),
                starts == loop_starts(b),
                limit == max_branch(isa),
                k <= n,
                partner@.len() == n,
                forall|o: int| #[trigger] ends.contains_key(o) ==> partner@[o] as int == ends[o],
                forall|c: int| #[trigger] starts.contains_key(c) ==> partner@[c] as int == starts[c],
                forall|i: int|
                    #![trigger ends.contains_key(i)]
                    ends.contains_key(i) <==> 0 <= i < b.len() && b[i] is Open,
                forall|j: int|
                    #![trigger starts.contains_key(j)]
                    starts.contains_key(j) <==> 0 <= j < b.len() && b[j] is Close,
                forall|i: int|
                    #![trigger ends.contains_key(i)]
                    ends.contains_key(i) ==> i < ends[i] < b.len() && starts[ends[i]] == i,
                forall|j: int|
                    #![trigger starts.contains_key(j)]
                    starts.contains_key(j) ==> ends.contains_key(starts[j]) && ends[starts[j]] == j,
                forall|i: int|
                    #![trigger ends.contains_key(i)]
                    ends.contains_key(i) && i < k ==> span(s, i, ends[i], isa) <= max_branch(isa),
                out@ == resolve(s, isa).take(k as int),
            decreases n - k,
        {
            assert(b[k as int] == s[k as int].bracket());
            let insn = self.0[k];
            match insn {
                IRInsn::JumpIfZero(_) => {
                    assert(ends.contains_key(k as int));
                    let end = partner[k];
                    match branch_span(&self.0, k, end, isa, limit) {
                        Some(v) => {
                            out.push(IRInsn::JumpIfZero(v as i32));
                        },
                        None => {
                            return Err(ResolveError::BranchOutOfRange);
                        },
                    }
                },
                IRInsn::JumpIfNonZero(_) => {
                    assert(starts.contains_key(k as int));
                    let start = partner[k];
                    assert(ends.contains_key(start as int));
                    match branch_span(&self.0, start, k, isa, limit) {
                        Some(v) => {
                            out.push(IRInsn::JumpIfNonZero(-(v as i32)));
                        },
                        None => {
                            return Err(ResolveError::BranchOutOfRange);
                        },
                    }
                },
                _ => {
                    out.push(insn);
                },
            }
            assert(out@ =~= resolve(s, isa).take(k + 1));
            k += 1;
        }
        assert(out@ =~= resolve(s, isa));
        self.0 = out;
        Ok(())
    }
}

} // verus!
