//! The function compiler state: one in-progress prototype, the open scope
//! block stack, the register allocator, constant interning, jump-chain
//! bookkeeping, and the operator encoders built on top of them.

use vstd::prelude::*;
use crate::instr::{Instruction, OpCode};
use crate::expr::{ExprDesc, Kind, Opr, Value, val_eq};

verus! {

/// Widest register index the instruction encoding can name.
pub const MAX_REGISTERS: usize = 255;

/// Most upvalue descriptors one closure can carry.
pub const MAX_UPVALUES: usize = 255;

/// Most entries the constant table of one prototype can hold.
pub const MAX_CONSTANTS: usize = 262144;

/// A recoverable, user-facing compile error: some table of the target
/// instruction encoding ran out of index space.  Each carries the source
/// line it arose on, so a host tool can report it against the unit.
#[derive(Clone, Copy, Debug, PartialEq, Eq, Structural)]
pub enum CodeError {
    TooManyConstants { line: i32 },
    TooManyUpValues { line: i32 },
    TooManyLocals { line: i32 },
}

/// A lexical-scope boundary, stack-linked through `prev`.
#[derive(Debug)]
pub struct Block {
    pub prev: Option<Box<Block>>,
    pub first_label: usize,
    pub first_goto: usize,
    /// Active-variable count on entry, restored on exit.
    pub active_var_count: usize,
    /// Set when a local of this block is captured by a nested closure; forces
    /// a close-upvalues instruction when the block is left.
    pub has_upval: bool,
    pub is_loop: bool,
}

impl Block {
    pub fn new(
        prev: Option<Box<Block>>,
        first_label: usize,
        first_goto: usize,
        active_var_count: usize,
        is_loop: bool,
    ) -> (r: Box<Block>)
        ensures
            *r == (Block { prev, first_label, first_goto, active_var_count, has_upval: false, is_loop }),
    {
        Box::new(Block { prev, first_label, first_goto, active_var_count, has_upval: false, is_loop })
    }
}

/// Debug range of one named local: the instructions over which it is live.
#[derive(Debug)]
pub struct LocalVariable {
    pub name: String,
    pub start_pc: usize,
    pub end_pc: usize,
}

/// One upvalue of a closure: captured either directly from a local register
/// of the immediately enclosing function (`is_local`) or forwarded from that
/// function's own upvalue table.
#[derive(Debug)]
pub struct UpValueDesc {
    pub name: String,
    pub is_local: bool,
    pub index: usize,
}

/// The sealed-on-completion artifact built for one function body.
#[derive(Debug)]
pub struct Prototype {
    pub constants: Vec<Value>,
    pub code: Vec<Instruction>,
    pub prototypes: Vec<Prototype>,
    /// Source line of each instruction, parallel to `code`.
    pub line_info: Vec<i32>,
    pub local_variables: Vec<LocalVariable>,
    pub up_values: Vec<UpValueDesc>,
    pub source: String,
    pub line_defined: usize,
    pub last_line_defined: usize,
    pub parameter_count: usize,
    /// High-water mark of the register window.
    pub max_stack_size: usize,
    pub is_vararg: bool,
}

impl Prototype {
    pub fn new() -> (r: Prototype)
        ensures
            r.constants@ == Seq::<Value>::empty(),
            r.code@ == Seq::<Instruction>::empty(),
            r.prototypes@ == Seq::<Prototype>::empty(),
            r.line_info@ == Seq::<i32>::empty(),
            r.local_variables@ == Seq::<LocalVariable>::empty(),
            r.up_values@ == Seq::<UpValueDesc>::empty(),
            r.source@ == Seq::<char>::empty(),
            r.line_defined == 0,
            r.last_line_defined == 0,
            r.parameter_count == 0,
            r.max_stack_size == 0,
            !r.is_vararg,
    {
        Prototype {
            constants: Vec::new(),
            code: Vec::new(),
            prototypes: Vec::new(),
            line_info: Vec::new(),
            local_variables: Vec::new(),
            up_values: Vec::new(),
            source: String::new(),
            line_defined: 0,
            last_line_defined: 0,
            parameter_count: 0,
            max_stack_size: 0,
            is_vararg: false,
        }
    }
}

/// A pending jump chain rooted at `h` is well formed when every link points
/// at an existing, strictly earlier instruction, so that walking the chain
/// terminates.
pub open spec fn chain_wf(code: Seq<Instruction>, h: Option<usize>) -> bool
    decreases (match h {
        Some(p) => p as int + 1,
        None => 0,
    }),
{
    match h {
        None => true,
        Some(p) => p < code.len() && (match code[p as int].jump {
            None => true,
            Some(q) => q < p && chain_wf(code, Some(q)),
        }),
    }
}

/// The instruction indices reachable from the pending chain rooted at `h`,
/// in increasing order (the head of the chain comes last).
pub open spec fn chain_seq(code: Seq<Instruction>, h: Option<usize>) -> Seq<usize>
    decreases (match h {
        Some(p) => p as int + 1,
        None => 0,
    }),
{
    match h {
        None => Seq::empty(),
        Some(p) => if p < code.len() {
            match code[p as int].jump {
                None => seq![p],
                Some(q) => if q < p {
                    chain_seq(code, Some(q)).push(p)
                } else {
                    seq![p]
                },
            }
        } else {
            Seq::empty()
        },
    }
}

/// Every index in a well-formed chain is bounded by the chain's head and lies
/// inside the code; the head itself is the last element.
pub proof fn lemma_chain_bounds(code: Seq<Instruction>, h: Option<usize>)
    requires
        chain_wf(code, h),
    ensures
        h is None ==> chain_seq(code, h) == Seq::<usize>::empty(),
        forall|j: usize| chain_seq(code, h).contains(j) ==> j < code.len(),
        h matches Some(p) ==> chain_seq(code, h).len() >= 1
            && chain_seq(code, h).last() == p
            && (forall|j: usize| chain_seq(code, h).contains(j) ==> j <= p),
    decreases (match h {
        Some(p) => p as int + 1,
        None => 0,
    }),
{
    match h {
        None => {}
        Some(p) => {
            match code[p as int].jump {
                None => {
                    assert(chain_seq(code, h) == seq![p]);
                }
                Some(q) => {
                    lemma_chain_bounds(code, Some(q));
                    let inner = chain_seq(code, Some(q));
                    assert(chain_seq(code, h) == inner.push(p));
                    assert forall|j: usize| chain_seq(code, h).contains(j) implies j <= p && j < code.len() by {
                        if j != p {
                            let k = choose|k: int| 0 <= k < chain_seq(code, h).len()
                                && chain_seq(code, h)[k] == j;
                            assert(inner[k] == j);
                            assert(inner.contains(j));
                        }
                    }
                }
            }
        }
    }
}

/// Appending instructions to the code leaves existing chains well formed and
/// unchanged.
pub proof fn lemma_chain_extend(code: Seq<Instruction>, longer: Seq<Instruction>, h: Option<usize>)
    requires
        chain_wf(code, h),
        code.len() <= longer.len(),
        forall|i: int| 0 <= i < code.len() ==> longer[i] == code[i],
    ensures
        chain_wf(longer, h),
        chain_seq(longer, h) == chain_seq(code, h),
    decreases (match h {
        Some(p) => p as int + 1,
        None => 0,
    }),
{
    match h {
        None => {}
        Some(p) => {
            match code[p as int].jump {
                None => {}
                Some(q) => {
                    lemma_chain_extend(code, longer, Some(q));
                }
            }
        }
    }
}

/// A chain survives any edit of the code that leaves the jump fields of its
/// own members alone.
pub proof fn lemma_chain_stable(code: Seq<Instruction>, code2: Seq<Instruction>, h: Option<usize>)
    requires
        chain_wf(code, h),
        code.len() <= code2.len(),
        forall|j: usize| #[trigger] chain_seq(code, h).contains(j)
            ==> code2[j as int].jump == code[j as int].jump,
    ensures
        chain_wf(code2, h),
        chain_seq(code2, h) == chain_seq(code, h),
    decreases (match h {
        Some(p) => p as int + 1,
        None => 0,
    }),
{
    match h {
        None => {}
        Some(p) => {
            lemma_chain_bounds(code, h);
            assert(chain_seq(code, h).contains(p));
            match code[p as int].jump {
                None => {
                    assert(chain_seq(code2, h) =~= seq![p]);
                }
                Some(q) => {
                    let inner = chain_seq(code, Some(q));
                    assert(chain_seq(code, h) =~= inner.push(p));
                    assert forall|j: usize| #[trigger] inner.contains(j)
                        implies chain_seq(code, h).contains(j) by {
                        let k = choose|k: int| 0 <= k < inner.len() && inner[k] == j;
                        assert(chain_seq(code, h)[k] == j);
                    }
                    lemma_chain_stable(code, code2, Some(q));
                }
            }
        }
    }
}

/// A member of a concatenation is a member of one of its parts.
pub proof fn lemma_concat_membership(a: Seq<usize>, b: Seq<usize>, c: Seq<usize>)
    requires
        c == a + b,
    ensures
        forall|j: usize| #[trigger] c.contains(j) ==> a.contains(j) || b.contains(j),
{
    assert forall|j: usize| #[trigger] c.contains(j) implies a.contains(j) || b.contains(j) by {
        let k = choose|k: int| 0 <= k < c.len() && c[k] == j;
        if k < a.len() {
            assert(a[k] == j);
        } else {
            assert(b[k - a.len()] == j);
        }
    }
}

/// All members of the `older` chain lie strictly before all members of the
/// `newer` chain in the instruction stream.
pub open spec fn chain_sep(code: Seq<Instruction>, older: Option<usize>, newer: Option<usize>) -> bool {
    forall|i: usize, j: usize|
        chain_seq(code, older).contains(i) && chain_seq(code, newer).contains(j) ==> i < j
}

/// Linking the end of a well-separated `newer` chain to the head of an
/// `older` chain splices the two into one well-formed chain.
pub proof fn lemma_chain_relink(
    code: Seq<Instruction>,
    code2: Seq<Instruction>,
    h: Option<usize>,
    older: Option<usize>,
    t: usize,
)
    requires
        chain_wf(code, h),
        chain_wf(code, older),
        chain_sep(code, older, h),
        h is Some,
        t == chain_seq(code, h)[0],
        code[t as int].jump is None,
        code2 == code.update(t as int, code[t as int].with_jump(older)),
    ensures
        chain_wf(code2, h),
        chain_seq(code2, h) == chain_seq(code, older) + chain_seq(code, h),
    decreases (match h {
        Some(p) => p as int + 1,
        None => 0,
    }),
{
    let p = h.unwrap();
    lemma_chain_bounds(code, h);
    lemma_chain_bounds(code, older);
    assert(chain_seq(code, h).contains(p));
    assert(chain_seq(code, h).contains(t));
    match code[p as int].jump {
        None => {
            assert(chain_seq(code, h) =~= seq![p]);
            assert(t == p);
            match older {
                None => {
                    assert(code2[p as int].jump is None);
                    assert(chain_seq(code2, h) =~= seq![p]);
                    assert(chain_seq(code, older) + chain_seq(code, h) =~= seq![p]);
                }
                Some(oh) => {
                    assert(chain_seq(code, older).contains(oh));
                    assert(oh < p);
                    assert(!chain_seq(code, older).contains(p)) by {
                        if chain_seq(code, older).contains(p) {
                            assert(p < p);
                        }
                    }
                    lemma_chain_update_outside(code, code2, p as int, older);
                    assert(code2[p as int].jump == Some(oh));
                    assert(chain_seq(code2, h) =~= chain_seq(code2, older).push(p));
                    assert(chain_seq(code, older) + chain_seq(code, h)
                        =~= chain_seq(code, older).push(p));
                }
            }
        }
        Some(q) => {
            let inner = chain_seq(code, Some(q));
            assert(chain_seq(code, h) =~= inner.push(p));
            lemma_chain_bounds(code, Some(q));
            assert(inner.len() >= 1);
            assert(inner[0] == chain_seq(code, h)[0]);
            assert forall|j: usize| #[trigger] inner.contains(j)
                implies chain_seq(code, h).contains(j) by {
                let k = choose|k: int| 0 <= k < inner.len() && inner[k] == j;
                assert(chain_seq(code, h)[k] == j);
            }
            assert(chain_sep(code, older, Some(q)));
            lemma_chain_relink(code, code2, Some(q), older, t);
            assert(inner.contains(t));
            assert(t <= q);
            assert(t != p);
            assert(code2[p as int].jump == Some(q));
            assert(chain_seq(code2, h) =~= chain_seq(code2, Some(q)).push(p));
            assert(chain_seq(code2, h)
                =~= (chain_seq(code, older) + inner).push(p));
            assert(chain_seq(code, older) + chain_seq(code, h)
                =~= (chain_seq(code, older) + inner).push(p));
        }
    }
}

/// A chain is untouched by an update to an instruction outside of it.
pub proof fn lemma_chain_update_outside(
    code: Seq<Instruction>,
    updated: Seq<Instruction>,
    at: int,
    h: Option<usize>,
)
    requires
        chain_wf(code, h),
        updated.len() == code.len(),
        0 <= at < code.len(),
        forall|i: int| 0 <= i < code.len() && i != at ==> updated[i] == code[i],
        !chain_seq(code, h).contains(at as usize),
    ensures
        chain_wf(updated, h),
        chain_seq(updated, h) == chain_seq(code, h),
    decreases (match h {
        Some(p) => p as int + 1,
        None => 0,
    }),
{
    match h {
        None => {}
        Some(p) => {
            lemma_chain_bounds(code, h);
            match code[p as int].jump {
                None => {
                    assert(chain_seq(code, h) == seq![p]);
                    assert(chain_seq(code, h).contains(p));
                    assert(p != at);
                }
                Some(q) => {
                    let inner = chain_seq(code, Some(q));
                    assert(chain_seq(code, h) == inner.push(p));
                    assert(chain_seq(code, h).contains(p));
                    assert(p != at);
                    assert forall|j: usize| inner.contains(j) implies chain_seq(code, h).contains(j) by {
                        let k = choose|k: int| 0 <= k < inner.len() && inner[k] == j;
                        assert(chain_seq(code, h)[k] == j);
                    }
                    lemma_chain_update_outside(code, updated, at, Some(q));
                }
            }
        }
    }
}

/// `i` is the slot of the first constant-table entry equal in value to `v`.
pub open spec fn first_constant_match(cs: Seq<Value>, v: Value, i: int) -> bool {
    &&& 0 <= i < cs.len()
    &&& val_eq(cs[i], v)
    &&& forall|j: int| 0 <= j < i ==> !val_eq(#[trigger] cs[j], v)
}

/// Some constant-table entry is equal in value to `v`.
pub open spec fn has_constant(cs: Seq<Value>, v: Value) -> bool {
    exists|j: int| 0 <= j < cs.len() && val_eq(#[trigger] cs[j], v)
}

/// `i` is the slot of the first upvalue descriptor named `name`.
pub open spec fn first_upval_match(uvs: Seq<UpValueDesc>, name: Seq<char>, i: int) -> bool {
    &&& 0 <= i < uvs.len()
    &&& uvs[i].name@ == name
    &&& forall|j: int| 0 <= j < i ==> (#[trigger] uvs[j].name@) != name
}

/// The slot `v` occupies, or would occupy, in the constant table: the first
/// entry equal to it in value, or the table's length if none is.
pub open spec fn constant_slot(cs: Seq<Value>, v: Value) -> int
    decreases cs.len(),
{
    if cs.len() == 0 {
        0
    } else if val_eq(cs[0], v) {
        0
    } else {
        1 + constant_slot(cs.subrange(1, cs.len() as int), v)
    }
}

/// `constant_slot` is the first matching slot when a match exists, and the
/// table's length when none does.
pub proof fn lemma_constant_slot(cs: Seq<Value>, v: Value)
    ensures
        has_constant(cs, v) ==> first_constant_match(cs, v, constant_slot(cs, v)),
        !has_constant(cs, v) ==> constant_slot(cs, v) == cs.len(),
    decreases cs.len(),
{
    if cs.len() == 0 {
    } else if val_eq(cs[0], v) {
    } else {
        let rest = cs.subrange(1, cs.len() as int);
        lemma_constant_slot(rest, v);
        assert forall|j: int| 0 <= j < rest.len() implies rest[j] == cs[j + 1] by {}
        if has_constant(cs, v) {
            let w = choose|w: int| 0 <= w < cs.len() && val_eq(cs[w], v);
            assert(w != 0);
            assert(val_eq(rest[w - 1], v));
            assert(has_constant(rest, v));
            let s = constant_slot(rest, v);
            assert(first_constant_match(rest, v, s));
            assert(val_eq(cs[s + 1], v));
            assert forall|j: int| 0 <= j < s + 1 implies !val_eq(#[trigger] cs[j], v) by {
                if j > 0 {
                    assert(!val_eq(rest[j - 1], v));
                }
            }
            assert(first_constant_match(cs, v, s + 1));
        } else {
            if has_constant(rest, v) {
                let w = choose|w: int| 0 <= w < rest.len() && val_eq(rest[w], v);
                assert(val_eq(cs[w + 1], v));
            }
        }
    }
}

/// Any first matching slot is `constant_slot`.
pub proof fn lemma_first_match_is_slot(cs: Seq<Value>, v: Value, i: int)
    requires
        first_constant_match(cs, v, i),
    ensures
        i == constant_slot(cs, v),
{
    assert(has_constant(cs, v));
    lemma_constant_slot(cs, v);
    let s = constant_slot(cs, v);
    if i < s {
        assert(!val_eq(cs[i], v));
    } else if s < i {
        assert(!val_eq(cs[s], v));
    }
}

/// Some upvalue descriptor carries `name`.
pub open spec fn has_upval_named(uvs: Seq<UpValueDesc>, name: Seq<char>) -> bool {
    exists|j: int| 0 <= j < uvs.len() && (#[trigger] uvs[j].name@) == name
}

/// No instruction index lies in both chains.
pub open spec fn chain_disjoint(code: Seq<Instruction>, a: Option<usize>, b: Option<usize>) -> bool {
    forall|j: usize| !(chain_seq(code, a).contains(j) && chain_seq(code, b).contains(j))
}

/// Every member of the chain lies strictly before instruction `p`.
pub open spec fn chain_all_below(code: Seq<Instruction>, h: Option<usize>, p: usize) -> bool {
    forall|j: usize| #[trigger] chain_seq(code, h).contains(j) ==> j < p
}

/// The scope blocks form a stack whose saved active-variable counts only
/// shrink going outward.
pub open spec fn blocks_wf(b: Option<Box<Block>>, active: nat) -> bool
    decreases b,
{
    match b {
        None => true,
        Some(blk) => blk.active_var_count <= active
            && blocks_wf(blk.prev, blk.active_var_count as nat),
    }
}

/// Setting the capture flag on the innermost block leaves the stack well
/// formed: the flag plays no part in the stack shape.
pub proof fn lemma_blocks_wf_mark(b: Option<Box<Block>>, nb: Option<Box<Block>>, n: nat)
    requires
        blocks_wf(b, n),
        match (b, nb) {
            (Some(x), Some(y)) => *y == (Block { has_upval: true, ..*x }),
            (None, None) => true,
            _ => false,
        },
    ensures
        blocks_wf(nb, n),
{
    match (b, nb) {
        (Some(x), Some(y)) => {
            assert(blocks_wf(x.prev, x.active_var_count as nat));
        }
        _ => {}
    }
}

/// A block stack stays well formed when the active-variable count grows.
pub proof fn lemma_blocks_wf_mono(b: Option<Box<Block>>, n1: nat, n2: nat)
    requires
        blocks_wf(b, n1),
        n1 <= n2,
    ensures
        blocks_wf(b, n2),
{
    match b {
        None => {}
        Some(_) => {}
    }
}

/// Whether an arithmetic operation folds at compile time: a closed operator
/// over two pure numeric literals whose result the number type can hold.
pub open spec fn spec_folds(op: OpCode, e1: ExprDesc, e2: ExprDesc) -> bool {
    e1.spec_is_numeral() && e2.spec_is_numeral() && (match (e1.kind, e2.kind) {
        (Kind::Number(n1), Kind::Number(n2)) => {
            ||| op == OpCode::Add && i64::MIN <= n1 + n2 <= i64::MAX
            ||| op == OpCode::Sub && i64::MIN <= n1 - n2 <= i64::MAX
            ||| op == OpCode::Mul && i64::MIN <= n1 * n2 <= i64::MAX
        },
        _ => false,
    })
}

/// What storing a discharged expression into register `reg` does to the
/// state: the load instruction it appends, or the destination patch it makes,
/// exactly as the expression's kind dictates.
pub open spec fn discharge_effect(
    pre_code: Seq<Instruction>,
    pre_consts: Seq<Value>,
    post_code: Seq<Instruction>,
    post_consts: Seq<Value>,
    e: ExprDesc,
    reg: usize,
) -> bool {
    match e.kind {
        Kind::Nil => post_code == pre_code.push(Instruction {
            op: OpCode::LoadNil,
            a: reg,
            b: 0,
            c: 0,
            jump: None,
        }) && post_consts == pre_consts,
        Kind::True => post_code == pre_code.push(Instruction {
            op: OpCode::LoadBool,
            a: reg,
            b: 1,
            c: 0,
            jump: None,
        }) && post_consts == pre_consts,
        Kind::False => post_code == pre_code.push(Instruction {
            op: OpCode::LoadBool,
            a: reg,
            b: 0,
            c: 0,
            jump: None,
        }) && post_consts == pre_consts,
        Kind::Constant(i) => post_code == pre_code.push(Instruction {
            op: OpCode::LoadConstant,
            a: reg,
            b: i,
            c: 0,
            jump: None,
        }) && post_consts == pre_consts,
        Kind::Number(n) => post_code == pre_code.push(Instruction {
            op: OpCode::LoadConstant,
            a: reg,
            b: constant_slot(pre_consts, Value::Number(n)) as usize,
            c: 0,
            jump: None,
        }) && post_consts == (if has_constant(pre_consts, Value::Number(n)) {
            pre_consts
        } else {
            pre_consts.push(Value::Number(n))
        }),
        Kind::NonRelocatable(r0) => (if r0 == reg {
            post_code == pre_code
        } else {
            post_code == pre_code.push(Instruction {
                op: OpCode::Move,
                a: reg,
                b: r0,
                c: 0,
                jump: None,
            })
        }) && post_consts == pre_consts,
        Kind::Relocatable(pc) => post_code == pre_code.update(
            pc as int,
            (Instruction { a: reg, ..pre_code[pc as int] }),
        ) && post_consts == pre_consts,
        _ => true,
    }
}

/// The mutable engine compiling one function body.  `prev` links the compiler
/// state of the textually enclosing function, used to resolve free variables
/// into upvalues.
#[derive(Debug)]
pub struct Function {
    pub prev: Option<Box<Function>>,
    pub block: Option<Box<Block>>,
    /// The prototype under construction.
    pub f: Prototype,
    /// Head of the chain of pending unconditional jumps awaiting the next
    /// label.
    pub jump_pc: Option<usize>,
    /// Last instruction index used as a jump target; suppresses duplicate
    /// fallthrough labels.
    pub last_target: usize,
    /// First free register; registers below `active_var_count` are reserved
    /// for live locals.
    pub free_register_count: usize,
    pub active_var_count: usize,
    /// Indices into `f.local_variables` of the active locals, innermost last;
    /// the local at position `i` lives in register `i`.
    pub active_locals: Vec<usize>,
}

impl Function {
    /// Well-formedness of this compiler state alone.
    pub open spec fn wf_local(self) -> bool {
        &&& self.active_var_count <= self.free_register_count
        &&& self.free_register_count <= self.f.max_stack_size
        &&& self.f.max_stack_size <= MAX_REGISTERS
        &&& self.f.code@.len() == self.f.line_info@.len()
        &&& chain_wf(self.f.code@, self.jump_pc)
        &&& self.last_target <= self.f.code@.len()
        &&& self.active_locals@.len() == self.active_var_count
        &&& (forall|i: int| 0 <= i < self.active_locals@.len()
            ==> (#[trigger] self.active_locals@[i]) < self.f.local_variables@.len())
        &&& blocks_wf(self.block, self.active_var_count as nat)
        &&& self.f.constants@.len() <= MAX_CONSTANTS
        &&& self.f.up_values@.len() <= MAX_UPVALUES
    }

    /// Well-formedness of this state and of every enclosing one.
    pub open spec fn wf(self) -> bool
        decreases self,
    {
        self.wf_local() && (match self.prev {
            Some(p) => p.wf(),
            None => true,
        })
    }

    pub fn new() -> (r: Function)
        ensures
            r.wf(),
            r.prev is None,
            r.block is None,
            r.jump_pc is None,
            r.last_target == 0,
            r.free_register_count == 0,
            r.active_var_count == 0,
            r.f.code@ == Seq::<Instruction>::empty(),
            r.f.constants@ == Seq::<Value>::empty(),
            r.f.up_values@ == Seq::<UpValueDesc>::empty(),
            r.f.local_variables@ == Seq::<LocalVariable>::empty(),
            r.f.line_info@ == Seq::<i32>::empty(),
            r.f.prototypes@ == Seq::<Prototype>::empty(),
            r.f.source@ == Seq::<char>::empty(),
            r.f.max_stack_size == 0,
            r.f.line_defined == 0,
            r.f.last_line_defined == 0,
            r.f.parameter_count == 0,
            !r.f.is_vararg,
            r.active_locals@ == Seq::<usize>::empty(),
    {
        Function {
            prev: None,
            block: None,
            f: Prototype::new(),
            jump_pc: None,
            last_target: 0,
            free_register_count: 0,
            active_var_count: 0,
            active_locals: Vec::new(),
        }
    }

    /// Opens a new lexical scope.  Requires that no temporaries are
    /// outstanding: opening a scope with dangling scratch registers is a
    /// programming error of the caller, not a recoverable condition.
    pub fn enter_block(
        &mut self,
        is_loop: bool,
        active_labels: usize,
        pending_gotos: usize,
        activity_vars: usize,
    )
        requires
            old(self).wf(),
            old(self).free_register_count == old(self).active_var_count,
            activity_vars == old(self).active_var_count,
        ensures
            final(self).wf(),
            final(self).block matches Some(b) && *b == (Block {
                prev: old(self).block,
                first_label: active_labels,
                first_goto: pending_gotos,
                active_var_count: activity_vars,
                has_upval: false,
                is_loop,
            }),
            *final(self) == (Function { block: final(self).block, ..*old(self) }),
    {
        let mut prev_block: Option<Box<Block>> = None;
        core::mem::swap(&mut self.block, &mut prev_block);
        self.block = Some(Block::new(
            prev_block,
            active_labels,
            pending_gotos,
            activity_vars,
            is_loop,
        ));
    }

    /// Appends one instruction and its source line, returning its pc.
    fn code_instruction(&mut self, i: Instruction, line: i32) -> (pc: usize)
        requires
            old(self).f.code@.len() == old(self).f.line_info@.len(),
        ensures
            pc == old(self).f.code@.len(),
            final(self).f.code@ == old(self).f.code@.push(i),
            final(self).f.line_info@ == old(self).f.line_info@.push(line),
            *final(self) == (Function {
                f: (Prototype {
                    code: final(self).f.code,
                    line_info: final(self).f.line_info,
                    ..old(self).f
                }),
                ..*old(self)
            }),
    {
        let pc = self.f.code.len();
        self.f.code.push(i);
        self.f.line_info.push(line);
        pc
    }

    /// Allocates the next free register, bumping the prototype's register
    /// high-water mark if the window grew.
    fn reserve_register(&mut self) -> (reg: usize)
        requires
            old(self).free_register_count < MAX_REGISTERS,
            old(self).free_register_count <= old(self).f.max_stack_size,
        ensures
            reg == old(self).free_register_count,
            final(self).free_register_count == reg + 1,
            final(self).f.max_stack_size == (if old(self).f.max_stack_size < reg + 1 {
                reg + 1
            } else {
                old(self).f.max_stack_size as int
            }),
            *final(self) == (Function {
                free_register_count: final(self).free_register_count,
                f: (Prototype { max_stack_size: final(self).f.max_stack_size, ..old(self).f }),
                ..*old(self)
            }),
    {
        let reg = self.free_register_count;
        self.free_register_count = reg + 1;
        if self.f.max_stack_size < self.free_register_count {
            self.f.max_stack_size = self.free_register_count;
        }
        reg
    }

    /// Reclaims a scratch register, but only if it is the top of the window
    /// and not a live local: registers below the active-variable count stay
    /// reserved, and any other register is someone else's concern.
    fn free_register(&mut self, reg: usize)
        ensures
            final(self).free_register_count == (if reg >= old(self).active_var_count
                && reg + 1 == old(self).free_register_count {
                reg
            } else {
                old(self).free_register_count
            }),
            *final(self) == (Function {
                free_register_count: final(self).free_register_count,
                ..*old(self)
            }),
    {
        if reg >= self.active_var_count && self.free_register_count >= 1
            && reg == self.free_register_count - 1 {
            self.free_register_count = reg;
        }
    }

    /// Reclaims the register an already-materialised operand occupies, once
    /// the operand has been consumed.
    fn free_expression(&mut self, e: &ExprDesc)
        ensures
            final(self).free_register_count == (if e.kind matches Kind::NonRelocatable(r)
                && r >= old(self).active_var_count
                && r + 1 == old(self).free_register_count {
                (old(self).free_register_count - 1) as usize
            } else {
                old(self).free_register_count
            }),
            *final(self) == (Function {
                free_register_count: final(self).free_register_count,
                ..*old(self)
            }),
    {
        if let Kind::NonRelocatable(r) = e.kind {
            self.free_register(r);
        }
    }

    /// Interns `v` into the constant table, deduplicating by value: two equal
    /// literals within one function share one constant slot.
    pub fn add_constant(&mut self, v: Value, line: i32) -> (r: Result<usize, CodeError>)
        requires
            old(self).wf(),
        ensures
            final(self).wf(),
            match r {
                Ok(idx) => if has_constant(old(self).f.constants@, v) {
                    &&& first_constant_match(old(self).f.constants@, v, idx as int)
                    &&& *final(self) == *old(self)
                } else {
                    &&& idx == old(self).f.constants@.len()
                    &&& final(self).f.constants@ == old(self).f.constants@.push(v)
                    &&& *final(self) == (Function {
                        f: (Prototype { constants: final(self).f.constants, ..old(self).f }),
                        ..*old(self)
                    })
                },
                Err(e) => {
                    &&& e == (CodeError::TooManyConstants { line })
                    &&& !has_constant(old(self).f.constants@, v)
                    &&& old(self).f.constants@.len() >= MAX_CONSTANTS
                    &&& *final(self) == *old(self)
                },
            },
    {
        let n = self.f.constants.len();
        let mut i: usize = 0;
        while i < n
            invariant
                old(self).wf(),
                *self == *old(self),
                n == self.f.constants@.len(),
                i <= n,
                forall|j: int| 0 <= j < i ==> !val_eq(#[trigger] self.f.constants@[j], v),
            decreases n - i,
        {
            if self.f.constants[i].same(&v) {
                return Ok(i);
            }
            i = i + 1;
        }
        if n >= MAX_CONSTANTS {
            return Err(CodeError::TooManyConstants { line });
        }
        self.f.constants.push(v);
        Ok(n)
    }

    /// Patches every jump reachable from `list` to branch to `target`,
    /// walking the chain threaded through the jump fields.
    fn patch_list(&mut self, list: Option<usize>, target: usize)
        requires
            chain_wf(old(self).f.code@, list),
        ensures
            final(self).f.code@.len() == old(self).f.code@.len(),
            forall|j: usize| #[trigger] chain_seq(old(self).f.code@, list).contains(j)
                ==> final(self).f.code@[j as int]
                    == old(self).f.code@[j as int].with_jump(Some(target)),
            forall|j: int| 0 <= j < old(self).f.code@.len()
                && !chain_seq(old(self).f.code@, list).contains(j as usize)
                ==> final(self).f.code@[j] == old(self).f.code@[j],
            *final(self) == (Function {
                f: (Prototype { code: final(self).f.code, ..old(self).f }),
                ..*old(self)
            }),
    {
        let ghost orig = self.f.code@;
        let ghost full = chain_seq(orig, list);
        let ghost mut processed: Seq<usize> = Seq::empty();
        let mut cur: Option<usize> = list;
        while cur.is_some()
            invariant
                chain_wf(orig, cur),
                self.f.code@.len() == orig.len(),
                full =~= chain_seq(orig, cur) + processed,
                forall|j: usize| #[trigger] chain_seq(orig, cur).contains(j)
                    ==> self.f.code@[j as int] == orig[j as int],
                forall|j: usize| #[trigger] processed.contains(j)
                    ==> j < orig.len()
                        && self.f.code@[j as int] == orig[j as int].with_jump(Some(target)),
                forall|j: int| 0 <= j < orig.len() && !full.contains(j as usize)
                    ==> self.f.code@[j] == orig[j],
                *self == (Function {
                    f: (Prototype { code: self.f.code, ..old(self).f }),
                    ..*old(self)
                }),
            decreases (match cur {
                Some(p) => p as int + 1,
                None => 0,
            }),
        {
            {
                let p = cur.unwrap();
                {
                    proof {
                        lemma_chain_bounds(orig, cur);
                        assert(chain_seq(orig, cur).last() == p);
                        assert(chain_seq(orig, cur).contains(p));
                    }
                    let mut ins = self.f.code[p];
                    let next = ins.jump;
                    proof {
                        assert(ins == orig[p as int]);
                    }
                    ins.jump = Some(target);
                    self.f.code[p] = ins;
                    proof {
                        let prior = chain_seq(orig, cur);
                        let rest = chain_seq(orig, next);
                        assert(prior =~= rest.push(p));
                        lemma_chain_bounds(orig, next);
                        assert forall|j: usize| #[trigger] rest.contains(j)
                            implies prior.contains(j) && j < p by {
                            let k = choose|k: int| 0 <= k < rest.len() && rest[k] == j;
                            assert(prior[k] == j);
                            if let Some(q) = next {
                                assert(j <= q);
                            }
                        }
                        let prev_processed = processed;
                        processed = seq![p] + processed;
                        assert forall|j: usize| #[trigger] processed.contains(j)
                            implies j == p || prev_processed.contains(j) by {
                            let k = choose|k: int| 0 <= k < processed.len()
                                && processed[k] == j;
                            if k > 0 {
                                assert(prev_processed[k - 1] == j);
                            }
                        }
                        assert(full.contains(p)) by {
                            assert((prior + prev_processed)[prior.len() - 1] == p);
                        }
                        assert(full =~= rest + processed) by {
                            assert(full =~= prior + prev_processed);
                            assert(rest.push(p) + prev_processed
                                =~= rest + (seq![p] + prev_processed));
                        }
                    }
                    cur = next;
                }
            }
        }
        proof {
            assert(chain_seq(orig, cur) == Seq::<usize>::empty());
            assert(full =~= Seq::<usize>::empty() + processed);
            assert(full =~= processed);
        }
    }

    /// Marks the current instruction pointer as a jump target, suppressing a
    /// duplicate fallthrough label, and returns it.
    pub fn get_label(&mut self) -> (pc: usize)
        ensures
            pc == old(self).f.code@.len(),
            final(self).last_target == pc,
            *final(self) == (Function { last_target: pc, ..*old(self) }),
    {
        let pc = self.f.code.len();
        self.last_target = pc;
        pc
    }

    /// Emits an unconditional jump whose target is not yet known, threading
    /// it onto the pending-jump chain that the next `patchtohere` resolves.
    pub fn jump(&mut self, line: i32) -> (pc: usize)
        requires
            old(self).wf(),
        ensures
            final(self).wf(),
            pc == old(self).f.code@.len(),
            final(self).f.code@.len() == old(self).f.code@.len() + 1,
            final(self).f.code@[pc as int] == (Instruction {
                op: OpCode::Jump,
                a: 0,
                b: 0,
                c: 0,
                jump: old(self).jump_pc,
            }),
            forall|i: int| 0 <= i < old(self).f.code@.len()
                ==> final(self).f.code@[i] == old(self).f.code@[i],
            final(self).jump_pc == Some(pc),
            chain_seq(final(self).f.code@, final(self).jump_pc)
                =~= chain_seq(old(self).f.code@, old(self).jump_pc).push(pc),
            final(self).free_register_count == old(self).free_register_count,
            final(self).active_var_count == old(self).active_var_count,
            final(self).f.constants == old(self).f.constants,
            final(self).f.up_values == old(self).f.up_values,
            final(self).f.local_variables == old(self).f.local_variables,
            final(self).prev == old(self).prev,
            final(self).block == old(self).block,
    {
        let ins = Instruction { op: OpCode::Jump, a: 0, b: 0, c: 0, jump: self.jump_pc };
        let pc = self.code_instruction(ins, line);
        self.jump_pc = Some(pc);
        proof {
            lemma_chain_extend(old(self).f.code@, self.f.code@, old(self).jump_pc);
        }
        pc
    }

    /// Resolves every pending unconditional jump to branch to the next
    /// instruction to be emitted, and empties the pending chain.  With no
    /// pending jumps this is a no-op apart from recording the label.
    pub fn patchtohere(&mut self)
        requires
            old(self).wf(),
        ensures
            final(self).wf(),
            final(self).jump_pc is None,
            final(self).last_target == old(self).f.code@.len(),
            final(self).f.code@.len() == old(self).f.code@.len(),
            forall|j: usize| #[trigger] chain_seq(old(self).f.code@, old(self).jump_pc).contains(j)
                ==> final(self).f.code@[j as int] == old(self).f.code@[j as int].with_jump(
                    Some(old(self).f.code@.len() as usize),
                ),
            forall|j: int| 0 <= j < old(self).f.code@.len()
                && !chain_seq(old(self).f.code@, old(self).jump_pc).contains(j as usize)
                ==> final(self).f.code@[j] == old(self).f.code@[j],
            *final(self) == (Function {
                f: (Prototype { code: final(self).f.code, ..old(self).f }),
                jump_pc: None,
                last_target: old(self).f.code@.len() as usize,
                ..*old(self)
            }),
    {
        let here = self.get_label();
        let list = self.jump_pc;
        self.jump_pc = None;
        self.patch_list(list, here);
    }

    /// The name of the active local living in register `i`.
    pub open spec fn active_local_name(self, i: int) -> Seq<char> {
        self.f.local_variables@[self.active_locals@[i] as int].name@
    }

    /// Some active local of this function carries `name`.
    pub open spec fn has_active_local(self, name: Seq<char>) -> bool {
        exists|j: int| 0 <= j < self.active_locals@.len()
            && #[trigger] self.active_local_name(j) == name
    }

    /// `reg` holds the innermost active local named `name`: the one a lookup
    /// finds, shadowing any outer local of the same name.
    pub open spec fn innermost_local_reg(self, name: Seq<char>, reg: int) -> bool {
        &&& 0 <= reg < self.active_locals@.len()
        &&& self.active_local_name(reg) == name
        &&& forall|j: int| reg < j < self.active_locals@.len()
            ==> #[trigger] self.active_local_name(j) != name
    }

    /// Whether `name` resolves somewhere up the chain of compiler states: as
    /// an upvalue this function already carries, as an active local of an
    /// enclosing function, or recursively as an upvalue of one.  A name that
    /// resolves nowhere classifies as a global.
    pub open spec fn spec_resolves(self, name: Seq<char>) -> bool
        decreases self,
    {
        has_upval_named(self.f.up_values@, name) || (match self.prev {
            Some(p) => p.has_active_local(name) || p.spec_resolves(name),
            None => false,
        })
    }

    /// Declares a new local variable in the current scope, binding it to the
    /// next register.  Requires a statement boundary: no outstanding
    /// temporaries.
    pub fn declare_local(&mut self, name: String, line: i32) -> (r: Result<usize, CodeError>)
        requires
            old(self).wf(),
            old(self).free_register_count == old(self).active_var_count,
        ensures
            final(self).wf(),
            match r {
                Ok(reg) => {
                    &&& reg == old(self).active_var_count
                    &&& final(self).active_var_count == old(self).active_var_count + 1
                    &&& final(self).free_register_count == final(self).active_var_count
                    &&& final(self).f.local_variables@.len()
                        == old(self).f.local_variables@.len() + 1
                    &&& final(self).f.local_variables@.last().name@ == name@
                    &&& final(self).f.local_variables@.take(
                        old(self).f.local_variables@.len() as int,
                    ) == old(self).f.local_variables@
                    &&& final(self).active_locals@ == old(self).active_locals@.push(
                        old(self).f.local_variables@.len() as usize,
                    )
                    &&& final(self).active_local_name(reg as int) == name@
                    &&& final(self).f.code@ == old(self).f.code@
                    &&& final(self).f.constants@ == old(self).f.constants@
                    &&& final(self).f.up_values@ == old(self).f.up_values@
                    &&& final(self).jump_pc == old(self).jump_pc
                    &&& final(self).prev == old(self).prev
                    &&& final(self).block == old(self).block
                },
                Err(e) => {
                    &&& e == (CodeError::TooManyLocals { line })
                    &&& old(self).free_register_count >= MAX_REGISTERS
                },
            },
    {
        if self.free_register_count >= MAX_REGISTERS {
            return Err(CodeError::TooManyLocals { line });
        }
        let dbg_index = self.f.local_variables.len();
        let start_pc = self.f.code.len();
        self.f.local_variables.push(LocalVariable { name, start_pc, end_pc: 0 });
        self.active_locals.push(dbg_index);
        let reg = self.reserve_register();
        self.active_var_count = self.active_var_count + 1;
        proof {
            lemma_blocks_wf_mono(
                self.block,
                old(self).active_var_count as nat,
                self.active_var_count as nat,
            );
            assert(self.f.local_variables@.take(old(self).f.local_variables@.len() as int)
                =~= old(self).f.local_variables@);
        }
        Ok(reg)
    }

    /// Closes the innermost lexical scope: restores the active-variable and
    /// free-register counts to the block's snapshot, records the end of the
    /// departing locals' live ranges, and, if a local of this block was
    /// captured by a nested closure, emits a close-upvalues instruction so
    /// the captures outlive the registers.  Afterwards no temporaries are
    /// outstanding.
    pub fn leave_block(&mut self, line: i32)
        requires
            old(self).wf(),
            old(self).block is Some,
        ensures
            final(self).wf(),
            old(self).block matches Some(blk) && {
                &&& final(self).block == blk.prev
                &&& final(self).active_var_count == blk.active_var_count
                &&& final(self).free_register_count == blk.active_var_count
                &&& final(self).active_locals@
                    == old(self).active_locals@.take(blk.active_var_count as int)
                &&& if blk.has_upval {
                    final(self).f.code@ == old(self).f.code@.push(Instruction {
                        op: OpCode::CloseUpValues,
                        a: blk.active_var_count,
                        b: 0,
                        c: 0,
                        jump: None,
                    })
                } else {
                    final(self).f.code@ == old(self).f.code@
                }
            },
            final(self).free_register_count == final(self).active_var_count,
            final(self).f.constants@ == old(self).f.constants@,
            final(self).f.up_values@ == old(self).f.up_values@,
            final(self).f.local_variables@.len() == old(self).f.local_variables@.len(),
            forall|i: int| 0 <= i < old(self).f.local_variables@.len()
                ==> (#[trigger] final(self).f.local_variables@[i]).name@
                        == old(self).f.local_variables@[i].name@
                    && final(self).f.local_variables@[i].start_pc
                        == old(self).f.local_variables@[i].start_pc,
            // the departing locals' live ranges end at the close pc
            old(self).block matches Some(blk)
                ==> forall|k: int| blk.active_var_count <= k < old(self).active_locals@.len()
                    ==> (#[trigger] final(self).f.local_variables@[
                        old(self).active_locals@[k] as int
                    ]).end_pc == old(self).f.code@.len(),
            final(self).jump_pc == old(self).jump_pc,
            final(self).prev == old(self).prev,
    {
        let mut taken: Option<Box<Block>> = None;
        core::mem::swap(&mut self.block, &mut taken);
        match taken {
            None => {
                proof {
                    assert(false);
                }
            }
            Some(blk) => {
                let target = blk.active_var_count;
                let pc = self.f.code.len();
                while self.active_locals.len() > target
                    invariant
                        old(self).wf(),
                        pc == old(self).f.code@.len(),
                        target <= self.active_locals@.len(),
                        self.active_locals@.len() <= old(self).active_locals@.len(),
                        forall|i: int| 0 <= i < self.active_locals@.len()
                            ==> #[trigger] self.active_locals@[i]
                                == old(self).active_locals@[i],
                        forall|k: int| self.active_locals@.len() <= k
                            < old(self).active_locals@.len()
                            ==> (#[trigger] self.f.local_variables@[
                                old(self).active_locals@[k] as int
                            ]).end_pc == pc,
                        self.f.local_variables@.len() == old(self).f.local_variables@.len(),
                        forall|i: int| 0 <= i < old(self).f.local_variables@.len()
                            ==> (#[trigger] self.f.local_variables@[i]).name@
                                    == old(self).f.local_variables@[i].name@
                                && self.f.local_variables@[i].start_pc
                                    == old(self).f.local_variables@[i].start_pc,
                        *self == (Function {
                            f: (Prototype {
                                local_variables: self.f.local_variables,
                                ..old(self).f
                            }),
                            block: None,
                            active_locals: self.active_locals,
                            ..*old(self)
                        }),
                    decreases self.active_locals@.len(),
                {
                    let ghost k = self.active_locals@.len() - 1;
                    let idx = match self.active_locals.pop() {
                        Some(x) => x,
                        None => {
                            proof {
                                assert(false);
                            }
                            0
                        }
                    };
                    proof {
                        assert(idx == old(self).active_locals@[k]);
                        assert(old(self).active_locals@[k]
                            < old(self).f.local_variables@.len());
                    }
                    self.f.local_variables[idx].end_pc = pc;
                }
                proof {
                    assert(self.active_locals@
                        =~= old(self).active_locals@.take(target as int));
                }
                self.active_var_count = target;
                self.free_register_count = target;
                self.block = blk.prev;
                proof {
                    assert(blocks_wf(old(self).block, old(self).active_var_count as nat));
                }
                if blk.has_upval {
                    let ins = Instruction {
                        op: OpCode::CloseUpValues,
                        a: target,
                        b: 0,
                        c: 0,
                        jump: None,
                    };
                    self.code_instruction(ins, line);
                    proof {
                        lemma_chain_extend(old(self).f.code@, self.f.code@, self.jump_pc);
                    }
                }
            }
        }
    }

    /// Looks `name` up in this function's own upvalue table.
    fn find_upval(&self, name: &String) -> (r: Option<usize>)
        ensures
            match r {
                Some(i) => first_upval_match(self.f.up_values@, name@, i as int),
                None => !has_upval_named(self.f.up_values@, name@),
            },
    {
        let n = self.f.up_values.len();
        let mut i: usize = 0;
        while i < n
            invariant
                n == self.f.up_values@.len(),
                i <= n,
                forall|j: int| 0 <= j < i ==> (#[trigger] self.f.up_values@[j].name@) != name@,
            decreases n - i,
        {
            if self.f.up_values[i].name == *name {
                return Some(i);
            }
            i = i + 1;
        }
        None
    }

    /// Looks `name` up among the active locals, innermost first, returning
    /// the register it lives in.
    fn find_active_local(&self, name: &String) -> (r: Option<usize>)
        requires
            self.wf(),
        ensures
            match r {
                Some(reg) => self.innermost_local_reg(name@, reg as int),
                None => !self.has_active_local(name@),
            },
    {
        let mut i = self.active_locals.len();
        while i > 0
            invariant
                self.wf(),
                i <= self.active_locals@.len(),
                forall|j: int| i <= j < self.active_locals@.len()
                    ==> #[trigger] self.active_local_name(j) != name@,
            decreases i,
        {
            i = i - 1;
            let dbg_index = self.active_locals[i];
            if self.f.local_variables[dbg_index].name == *name {
                return Some(i);
            }
        }
        None
    }

    /// Appends an upvalue descriptor, subject to the encoding's field width.
    fn push_upval(&mut self, name: &String, is_local: bool, index: usize, line: i32) -> (r: Result<
        usize,
        CodeError,
    >)
        ensures
            match r {
                Ok(i) => {
                    &&& i == old(self).f.up_values@.len()
                    &&& old(self).f.up_values@.len() < MAX_UPVALUES
                    &&& final(self).f.up_values@
                        == old(self).f.up_values@.push(final(self).f.up_values@.last())
                    &&& final(self).f.up_values@.last().name@ == name@
                    &&& final(self).f.up_values@.last().is_local == is_local
                    &&& final(self).f.up_values@.last().index == index
                    &&& *final(self) == (Function {
                        f: (Prototype { up_values: final(self).f.up_values, ..old(self).f }),
                        ..*old(self)
                    })
                },
                Err(e) => {
                    &&& e == (CodeError::TooManyUpValues { line })
                    &&& old(self).f.up_values@.len() >= MAX_UPVALUES
                    &&& *final(self) == *old(self)
                },
            },
    {
        let n = self.f.up_values.len();
        if n >= MAX_UPVALUES {
            return Err(CodeError::TooManyUpValues { line });
        }
        self.f.up_values.push(UpValueDesc { name: name.clone(), is_local, index });
        Ok(n)
    }

    /// Marks the nearest open block as having a captured local, so that
    /// leaving it closes the captured registers.
    fn mark_block_upval(&mut self)
        ensures
            match old(self).block {
                None => *final(self) == *old(self),
                Some(b) => final(self).block matches Some(nb)
                    && *nb == (Block { has_upval: true, ..*b })
                    && *final(self) == (Function { block: final(self).block, ..*old(self) }),
            },
            old(self).wf() ==> final(self).wf(),
    {
        match &mut self.block {
            Some(b) => {
                b.has_upval = true;
            }
            None => {}
        }
        proof {
            if old(self).wf() {
                lemma_blocks_wf_mark(
                    old(self).block,
                    self.block,
                    old(self).active_var_count as nat,
                );
            }
        }
    }

    /// Resolves a free-variable name into an upvalue of this function,
    /// searching the enclosing compiler states.  An existing descriptor of
    /// the same name is reused; otherwise a name found as an active local of
    /// the enclosing function is captured directly (and that scope is marked
    /// so its registers are closed on exit), a name the enclosing function
    /// itself reaches as an upvalue is forwarded, and a name found nowhere up
    /// the chain classifies as a global, which is the caller's concern, not
    /// an error.
    pub fn make_upval(&mut self, name: &String, line: i32) -> (r: Result<Option<usize>, CodeError>)
        requires
            old(self).wf(),
        ensures
            final(self).wf(),
            has_upval_named(old(self).f.up_values@, name@) ==> match r {
                Ok(x) => x matches Some(i)
                    && first_upval_match(old(self).f.up_values@, name@, i as int)
                    && *final(self) == *old(self),
                Err(_) => false,
            },
            r == Ok::<Option<usize>, CodeError>(None) ==> *final(self) == *old(self),
            match r {
                Ok(x) => match x {
                    Some(i) => i < final(self).f.up_values@.len()
                        && final(self).f.up_values@[i as int].name@ == name@,
                    None => !has_upval_named(old(self).f.up_values@, name@),
                },
                Err(_) => true,
            },
            !has_upval_named(old(self).f.up_values@, name@) && (r matches Ok(x) && x is Some)
                ==> final(self).f.up_values@
                    == old(self).f.up_values@.push(final(self).f.up_values@.last()),
            // the unresolved-global classification, exactly when the name
            // resolves nowhere up the chain
            r == Ok::<Option<usize>, CodeError>(None) <==> !old(self).spec_resolves(name@),
            // a name found as an active local of the enclosing function is
            // captured directly: a descriptor naming its register is
            // appended and that scope is marked so the register stays live
            (match old(self).prev {
                Some(p) => {
                    &&& (!has_upval_named(old(self).f.up_values@, name@)
                        && p.has_active_local(name@)
                        && old(self).f.up_values@.len() < MAX_UPVALUES) ==> {
                        &&& r == Ok::<Option<usize>, CodeError>(
                            Some(old(self).f.up_values@.len() as usize),
                        )
                        &&& final(self).f.up_values@.last().is_local
                        &&& p.innermost_local_reg(
                            name@,
                            final(self).f.up_values@.last().index as int,
                        )
                        &&& match final(self).prev {
                            Some(np) => match np.block {
                                Some(nb) => nb.has_upval,
                                None => true,
                            },
                            None => false,
                        }
                    }
                    // a name the enclosing function reaches as an upvalue is
                    // forwarded: the appended descriptor points at that slot
                    &&& (!has_upval_named(old(self).f.up_values@, name@)
                        && !p.has_active_local(name@)
                        && has_upval_named(p.f.up_values@, name@)
                        && old(self).f.up_values@.len() < MAX_UPVALUES) ==> {
                        &&& r == Ok::<Option<usize>, CodeError>(
                            Some(old(self).f.up_values@.len() as usize),
                        )
                        &&& !final(self).f.up_values@.last().is_local
                        &&& first_upval_match(
                            p.f.up_values@,
                            name@,
                            final(self).f.up_values@.last().index as int,
                        )
                    }
                    // at the encoding's cap a resolvable name is refused
                    &&& (!has_upval_named(old(self).f.up_values@, name@)
                        && (p.has_active_local(name@) || p.spec_resolves(name@))
                        && old(self).f.up_values@.len() >= MAX_UPVALUES)
                        ==> r is Err
                },
                None => true,
            }),
            // a refusal names the cap and leaves this function's table whole
            r is Err ==> final(self).f.up_values@ == old(self).f.up_values@
                && r == Err::<Option<usize>, CodeError>(CodeError::TooManyUpValues { line }),
            // a freshly appended descriptor is a direct capture exactly when
            // the enclosing function holds the name as an active local
            (!has_upval_named(old(self).f.up_values@, name@) && (r matches Ok(x) && x is Some))
                ==> (final(self).f.up_values@.last().is_local <==> (match old(self).prev {
                    Some(p) => p.has_active_local(name@),
                    None => false,
                })),
            final(self).f.code@ == old(self).f.code@,
            final(self).f.constants@ == old(self).f.constants@,
            final(self).f.local_variables@ == old(self).f.local_variables@,
            final(self).f.line_info@ == old(self).f.line_info@,
            final(self).free_register_count == old(self).free_register_count,
            final(self).active_var_count == old(self).active_var_count,
            final(self).active_locals@ == old(self).active_locals@,
            final(self).jump_pc == old(self).jump_pc,
            final(self).last_target == old(self).last_target,
            final(self).block == old(self).block,
        decreases *old(self),
    {
        if let Some(i) = self.find_upval(name) {
            return Ok(Some(i));
        }
        let step: Option<(bool, usize)> = match &mut self.prev {
            None => None,
            Some(p) => {
                if let Some(reg) = p.find_active_local(name) {
                    p.mark_block_upval();
                    proof {
                        assert(p.wf());
                    }
                    Some((true, reg))
                } else {
                    match p.make_upval(name, line) {
                        Err(e) => {
                            return Err(e);
                        }
                        Ok(Some(idx)) => Some((false, idx)),
                        Ok(None) => None,
                    }
                }
            }
        };
        match step {
            None => Ok(None),
            Some((is_local, index)) => match self.push_upval(name, is_local, index, line) {
                Ok(i) => Ok(Some(i)),
                Err(e) => Err(e),
            },
        }
    }

    /// Well-formedness of an expression descriptor against this state: its
    /// chains are walkable and disjoint, and a pending instruction it points
    /// at exists (a pending boolean jump is itself still unpatched and later
    /// than everything chained to it).
    pub open spec fn expr_wf(self, e: ExprDesc) -> bool {
        &&& chain_wf(self.f.code@, e.t)
        &&& chain_wf(self.f.code@, e.f)
        &&& chain_disjoint(self.f.code@, e.t, e.f)
        &&& match e.kind {
            Kind::Jump(pc) => pc < self.f.code@.len()
                && self.f.code@[pc as int].jump is None
                && chain_all_below(self.f.code@, e.t, pc)
                && chain_all_below(self.f.code@, e.f, pc),
            Kind::Relocatable(pc) => pc < self.f.code@.len(),
            Kind::Call(pc) => pc < self.f.code@.len(),
            Kind::VarArg(pc) => pc < self.f.code@.len(),
            _ => true,
        }
    }

    /// The descriptor's pending jumps are apart from the pending
    /// unconditional-jump chain, so resolving one cannot corrupt the other.
    pub open spec fn expr_apart(self, e: ExprDesc) -> bool {
        &&& chain_disjoint(self.f.code@, e.t, self.jump_pc)
        &&& chain_disjoint(self.f.code@, e.f, self.jump_pc)
        &&& match e.kind {
            Kind::Jump(pc) => !chain_seq(self.f.code@, self.jump_pc).contains(pc),
            _ => true,
        }
    }

    /// Splices the `older` chain onto the end of the `newer` chain and
    /// returns the combined chain's head.
    fn concat_chains(&mut self, newer: Option<usize>, older: Option<usize>) -> (r: Option<usize>)
        requires
            chain_wf(old(self).f.code@, newer),
            chain_wf(old(self).f.code@, older),
            chain_sep(old(self).f.code@, older, newer),
        ensures
            final(self).f.code@.len() == old(self).f.code@.len(),
            chain_wf(final(self).f.code@, r),
            chain_seq(final(self).f.code@, r) == chain_seq(old(self).f.code@, older)
                + chain_seq(old(self).f.code@, newer),
            r == (if newer is Some { newer } else { older }),
            (newer is None || older is None) ==> *final(self) == *old(self),
            forall|i: int| 0 <= i < old(self).f.code@.len()
                && !chain_seq(old(self).f.code@, newer).contains(i as usize)
                ==> final(self).f.code@[i] == old(self).f.code@[i],
            forall|i: int| 0 <= i < old(self).f.code@.len()
                ==> final(self).f.code@[i] == old(self).f.code@[i]
                    || final(self).f.code@[i]
                        == old(self).f.code@[i].with_jump(older),
            *final(self) == (Function {
                f: (Prototype { code: final(self).f.code, ..old(self).f }),
                ..*old(self)
            }),
    {
        let ghost orig = self.f.code@;
        match newer {
            None => {
                proof {
                    assert(chain_seq(orig, older) + chain_seq(orig, newer)
                        =~= chain_seq(orig, older));
                }
                older
            }
            Some(nh) => {
                if older.is_none() {
                    proof {
                        assert(chain_seq(orig, older) + chain_seq(orig, newer)
                            =~= chain_seq(orig, newer));
                    }
                    return newer;
                }
                let mut curp = nh;
                while self.f.code[curp].jump.is_some()
                    invariant
                        *self == *old(self),
                        orig == self.f.code@,
                        chain_wf(orig, Some(curp)),
                        chain_seq(orig, Some(curp)).len() >= 1,
                        chain_seq(orig, Some(curp))[0] == chain_seq(orig, newer)[0],
                        curp < orig.len(),
                    decreases curp,
                {
                    let q = match self.f.code[curp].jump {
                        Some(x) => x,
                        None => {
                            proof {
                                assert(false);
                            }
                            0
                        }
                    };
                    proof {
                        lemma_chain_bounds(orig, Some(curp));
                        lemma_chain_bounds(orig, Some(q));
                        assert(chain_seq(orig, Some(curp))
                            =~= chain_seq(orig, Some(q)).push(curp));
                        assert(chain_seq(orig, Some(q))[0]
                            == chain_seq(orig, Some(curp))[0]);
                    }
                    curp = q;
                }
                proof {
                    assert(chain_seq(orig, Some(curp)) =~= seq![curp]);
                    assert(curp == chain_seq(orig, newer)[0]);
                }
                let mut ins = self.f.code[curp];
                ins.jump = older;
                self.f.code[curp] = ins;
                proof {
                    assert(self.f.code@ =~= orig.update(
                        curp as int,
                        orig[curp as int].with_jump(older),
                    ));
                    lemma_chain_relink(orig, self.f.code@, newer, older, curp);
                    lemma_chain_bounds(orig, newer);
                    assert(chain_seq(orig, newer).contains(curp)) by {
                        assert(chain_seq(orig, newer)[0] == curp);
                    }
                }
                newer
            }
        }
    }

    /// Resolves a variable-flavoured descriptor to a value: a local becomes
    /// its register, an upvalue or a table access becomes the instruction
    /// that reads it, a call or vararg becomes its result slot.
    pub fn discharge_vars(&mut self, e: &ExprDesc, line: i32) -> (r: ExprDesc)
        requires
            old(self).wf(),
            old(self).expr_wf(*e),
        ensures
            final(self).wf(),
            final(self).expr_wf(r),
            old(self).expr_apart(*e) ==> final(self).expr_apart(r),
            r.t == e.t,
            r.f == e.f,
            final(self).f.code@.len() >= old(self).f.code@.len(),
            final(self).f.code@.len() <= old(self).f.code@.len() + 1,
            forall|i: int| 0 <= i < old(self).f.code@.len()
                ==> final(self).f.code@[i].jump == old(self).f.code@[i].jump,
            chain_seq(final(self).f.code@, e.t) == chain_seq(old(self).f.code@, e.t),
            chain_seq(final(self).f.code@, e.f) == chain_seq(old(self).f.code@, e.f),
            chain_seq(final(self).f.code@, final(self).jump_pc)
                == chain_seq(old(self).f.code@, old(self).jump_pc),
            match e.kind {
                Kind::Local(reg) => r.kind == Kind::NonRelocatable(reg)
                    && *final(self) == *old(self),
                Kind::UpValue(i) => r.kind
                    == Kind::Relocatable(old(self).f.code@.len() as usize)
                    && final(self).f.code@ == old(self).f.code@.push(Instruction {
                        op: OpCode::GetUpValue,
                        a: 0,
                        b: i,
                        c: 0,
                        jump: None,
                    })
                    && final(self).free_register_count == old(self).free_register_count,
                Kind::Indexed(_, _, _) => r.kind
                    == Kind::Relocatable(old(self).f.code@.len() as usize)
                    && final(self).f.code@.len() == old(self).f.code@.len() + 1,
                Kind::Call(pc) => r.kind
                    == Kind::NonRelocatable(old(self).f.code@[pc as int].a)
                    && *final(self) == *old(self),
                Kind::VarArg(pc) => r.kind == Kind::Relocatable(pc)
                    && final(self).f.code@ == old(self).f.code@.update(
                        pc as int,
                        (Instruction { b: 2, ..old(self).f.code@[pc as int] }),
                    )
                    && final(self).free_register_count == old(self).free_register_count,
                _ => r == *e && *final(self) == *old(self),
            },
            final(self).free_register_count <= old(self).free_register_count,
            final(self).active_var_count == old(self).active_var_count,
            final(self).f.max_stack_size == old(self).f.max_stack_size,
            final(self).f.constants@ == old(self).f.constants@,
            final(self).f.up_values@ == old(self).f.up_values@,
            final(self).f.local_variables@ == old(self).f.local_variables@,
            final(self).jump_pc == old(self).jump_pc,
            final(self).prev == old(self).prev,
            final(self).block == old(self).block,
            final(self).active_locals@ == old(self).active_locals@,
    {
        let ghost orig = self.f.code@;
        match e.kind {
            Kind::Local(reg) => ExprDesc { kind: Kind::NonRelocatable(reg), t: e.t, f: e.f },
            Kind::UpValue(i) => {
                let pc = self.code_instruction(
                    Instruction { op: OpCode::GetUpValue, a: 0, b: i, c: 0, jump: None },
                    line,
                );
                proof {
                    lemma_chain_extend(orig, self.f.code@, e.t);
                    lemma_chain_extend(orig, self.f.code@, e.f);
                    lemma_chain_extend(orig, self.f.code@, self.jump_pc);
                }
                ExprDesc { kind: Kind::Relocatable(pc), t: e.t, f: e.f }
            }
            Kind::Indexed(tt, tslot, kslot) => {
                self.free_register(kslot);
                if let crate::expr::TableType::Local = tt {
                    self.free_register(tslot);
                }
                let pc = self.code_instruction(
                    Instruction { op: OpCode::GetIndexed, a: 0, b: tslot, c: kslot, jump: None },
                    line,
                );
                proof {
                    lemma_chain_extend(orig, self.f.code@, e.t);
                    lemma_chain_extend(orig, self.f.code@, e.f);
                    lemma_chain_extend(orig, self.f.code@, self.jump_pc);
                }
                ExprDesc { kind: Kind::Relocatable(pc), t: e.t, f: e.f }
            }
            Kind::Call(pc) => {
                let a = self.f.code[pc].a;
                ExprDesc { kind: Kind::NonRelocatable(a), t: e.t, f: e.f }
            }
            Kind::VarArg(pc) => {
                let mut ins = self.f.code[pc];
                ins.b = 2;
                self.f.code[pc] = ins;
                proof {
                    assert(forall|i: int| 0 <= i < orig.len()
                        ==> self.f.code@[i].jump == orig[i].jump);
                    lemma_chain_bounds(orig, e.t);
                    lemma_chain_bounds(orig, e.f);
                    lemma_chain_bounds(orig, self.jump_pc);
                    lemma_chain_stable(orig, self.f.code@, e.t);
                    lemma_chain_stable(orig, self.f.code@, e.f);
                    lemma_chain_stable(orig, self.f.code@, self.jump_pc);
                }
                ExprDesc { kind: Kind::Relocatable(pc), t: e.t, f: e.f }
            }
            _ => *e,
        }
    }

    /// Stores an already-discharged expression's value into register `reg`:
    /// a compile-time constant becomes a load, a relocatable instruction has
    /// its destination fixed, a value in another register is moved.  A
    /// pending boolean jump is left for `expression2reg` to settle.
    fn discharge2reg(&mut self, e: &ExprDesc, reg: usize, line: i32) -> (r: ExprDesc)
        requires
            old(self).wf(),
            old(self).expr_wf(*e),
            !(e.kind matches Kind::Void),
            !(e.kind matches Kind::Local(_)),
            !(e.kind matches Kind::UpValue(_)),
            !(e.kind matches Kind::Indexed(_, _, _)),
            !(e.kind matches Kind::Call(_)),
            !(e.kind matches Kind::VarArg(_)),
            old(self).f.constants@.len() < MAX_CONSTANTS,
        ensures
            final(self).wf(),
            final(self).expr_wf(r),
            old(self).expr_apart(*e) ==> final(self).expr_apart(r),
            r.t == e.t,
            r.f == e.f,
            r.kind == (match e.kind {
                Kind::Jump(pc) => Kind::Jump(pc),
                _ => Kind::NonRelocatable(reg),
            }),
            e.kind matches Kind::Jump(_) ==> r == *e && *final(self) == *old(self),
            !(e.kind matches Kind::Jump(_))
                ==> discharge_effect(old(self).f.code@, old(self).f.constants@, final(self).f.code@, final(self).f.constants@, *e, reg),
            final(self).f.code@.len() >= old(self).f.code@.len(),
            final(self).f.code@.len() <= old(self).f.code@.len() + 1,
            forall|i: int| 0 <= i < old(self).f.code@.len()
                ==> final(self).f.code@[i].jump == old(self).f.code@[i].jump,
            chain_seq(final(self).f.code@, e.t) == chain_seq(old(self).f.code@, e.t),
            chain_seq(final(self).f.code@, e.f) == chain_seq(old(self).f.code@, e.f),
            chain_seq(final(self).f.code@, final(self).jump_pc)
                == chain_seq(old(self).f.code@, old(self).jump_pc),
            e.kind matches Kind::Jump(pc)
                ==> final(self).f.code@[pc as int].jump is None,
            final(self).free_register_count == old(self).free_register_count,
            final(self).active_var_count == old(self).active_var_count,
            final(self).f.max_stack_size == old(self).f.max_stack_size,
            final(self).f.up_values@ == old(self).f.up_values@,
            final(self).f.local_variables@ == old(self).f.local_variables@,
            final(self).jump_pc == old(self).jump_pc,
            final(self).prev == old(self).prev,
            final(self).block == old(self).block,
            final(self).active_locals@ == old(self).active_locals@,
            final(self).f.constants@.len() >= old(self).f.constants@.len(),
            final(self).f.constants@.len() <= old(self).f.constants@.len() + 1,
    {
        let ghost orig = self.f.code@;
        let r = match e.kind {
            Kind::Nil => {
                self.code_instruction(
                    Instruction { op: OpCode::LoadNil, a: reg, b: 0, c: 0, jump: None },
                    line,
                );
                ExprDesc { kind: Kind::NonRelocatable(reg), t: e.t, f: e.f }
            }
            Kind::True => {
                self.code_instruction(
                    Instruction { op: OpCode::LoadBool, a: reg, b: 1, c: 0, jump: None },
                    line,
                );
                ExprDesc { kind: Kind::NonRelocatable(reg), t: e.t, f: e.f }
            }
            Kind::False => {
                self.code_instruction(
                    Instruction { op: OpCode::LoadBool, a: reg, b: 0, c: 0, jump: None },
                    line,
                );
                ExprDesc { kind: Kind::NonRelocatable(reg), t: e.t, f: e.f }
            }
            Kind::Constant(i) => {
                self.code_instruction(
                    Instruction { op: OpCode::LoadConstant, a: reg, b: i, c: 0, jump: None },
                    line,
                );
                ExprDesc { kind: Kind::NonRelocatable(reg), t: e.t, f: e.f }
            }
            Kind::Number(n) => {
                let idx = match self.add_constant(Value::Number(n), line) {
                    Ok(i) => i,
                    Err(_) => {
                        proof {
                            assert(false);
                        }
                        0
                    }
                };
                self.code_instruction(
                    Instruction { op: OpCode::LoadConstant, a: reg, b: idx, c: 0, jump: None },
                    line,
                );
                proof {
                    let v = Value::Number(n);
                    if has_constant(old(self).f.constants@, v) {
                        lemma_first_match_is_slot(old(self).f.constants@, v, idx as int);
                    } else {
                        lemma_constant_slot(old(self).f.constants@, v);
                    }
                }
                ExprDesc { kind: Kind::NonRelocatable(reg), t: e.t, f: e.f }
            }
            Kind::NonRelocatable(r0) => {
                if r0 != reg {
                    self.code_instruction(
                        Instruction { op: OpCode::Move, a: reg, b: r0, c: 0, jump: None },
                        line,
                    );
                }
                ExprDesc { kind: Kind::NonRelocatable(reg), t: e.t, f: e.f }
            }
            Kind::Relocatable(pc) => {
                let mut ins = self.f.code[pc];
                ins.a = reg;
                self.f.code[pc] = ins;
                ExprDesc { kind: Kind::NonRelocatable(reg), t: e.t, f: e.f }
            }
            _ => *e,
        };
        proof {
            assert(forall|i: int| 0 <= i < orig.len()
                ==> self.f.code@[i].jump == orig[i].jump);
            lemma_chain_bounds(orig, e.t);
            lemma_chain_bounds(orig, e.f);
            lemma_chain_bounds(orig, self.jump_pc);
            lemma_chain_stable(orig, self.f.code@, e.t);
            lemma_chain_stable(orig, self.f.code@, e.f);
            lemma_chain_stable(orig, self.f.code@, self.jump_pc);
        }
        r
    }

    /// Materialises a discharged expression into register `reg`, settling any
    /// pending boolean control flow: a pending jump joins the true chain, the
    /// two canonical boolean loads are emitted, and both chains are patched
    /// to converge on the one result register.
    #[verifier::rlimit(100)]
    #[verifier::spinoff_prover]
    fn expression2reg(&mut self, e: &ExprDesc, reg: usize, line: i32) -> (r: ExprDesc)
        requires
            old(self).wf(),
            old(self).expr_wf(*e),
            old(self).expr_apart(*e),
            !(e.kind matches Kind::Void),
            !(e.kind matches Kind::Local(_)),
            !(e.kind matches Kind::UpValue(_)),
            !(e.kind matches Kind::Indexed(_, _, _)),
            !(e.kind matches Kind::Call(_)),
            !(e.kind matches Kind::VarArg(_)),
            old(self).f.constants@.len() < MAX_CONSTANTS,
        ensures
            final(self).wf(),
            r == (ExprDesc { kind: Kind::NonRelocatable(reg), t: None::<usize>, f: None::<usize> }),
            final(self).f.code@.len() >= old(self).f.code@.len(),
            e.t is None && e.f is None && !(e.kind matches Kind::Jump(_))
                ==> discharge_effect(old(self).f.code@, old(self).f.constants@, final(self).f.code@, final(self).f.constants@, *e, reg),
            (e.t is None && e.f is None) ==> (match e.kind {
                Kind::Jump(pc) => {
                    &&& final(self).f.code@ == old(self).f.code@.update(
                        pc as int,
                        old(self).f.code@[pc as int].with_jump(
                            Some((old(self).f.code@.len() + 1) as usize),
                        ),
                    ).push(Instruction { op: OpCode::LoadBool, a: reg, b: 0, c: 1, jump: None })
                        .push(Instruction { op: OpCode::LoadBool, a: reg, b: 1, c: 0, jump: None })
                    &&& final(self).f.constants@ == old(self).f.constants@
                },
                _ => true,
            }),
            // a pending boolean, whatever its chains: the two canonical
            // boolean loads are emitted, the pending test jump lands on the
            // load-true, the true chain with it, the false chain on the
            // load-false, and everything else stands
            (match e.kind {
                Kind::Jump(pc) => {
                    &&& final(self).f.code@.len() == old(self).f.code@.len() + 2
                    &&& final(self).f.code@[old(self).f.code@.len() as int]
                        == (Instruction { op: OpCode::LoadBool, a: reg, b: 0, c: 1, jump: None })
                    &&& final(self).f.code@[old(self).f.code@.len() as int + 1]
                        == (Instruction { op: OpCode::LoadBool, a: reg, b: 1, c: 0, jump: None })
                    &&& final(self).f.code@[pc as int]
                        == old(self).f.code@[pc as int].with_jump(
                            Some((old(self).f.code@.len() + 1) as usize),
                        )
                    &&& forall|j: usize| #[trigger] chain_seq(old(self).f.code@, e.t).contains(j)
                        ==> final(self).f.code@[j as int] == old(self).f.code@[j as int]
                            .with_jump(Some((old(self).f.code@.len() + 1) as usize))
                    &&& forall|j: usize| #[trigger] chain_seq(old(self).f.code@, e.f).contains(j)
                        ==> final(self).f.code@[j as int] == old(self).f.code@[j as int]
                            .with_jump(Some(old(self).f.code@.len() as usize))
                    &&& forall|i: int| 0 <= i < old(self).f.code@.len() && i != pc
                        && !chain_seq(old(self).f.code@, e.t).contains(i as usize)
                        && !chain_seq(old(self).f.code@, e.f).contains(i as usize)
                        ==> final(self).f.code@[i] == old(self).f.code@[i]
                    &&& final(self).f.constants@ == old(self).f.constants@
                },
                _ => true,
            }),
            final(self).f.max_stack_size == old(self).f.max_stack_size,
            final(self).free_register_count == old(self).free_register_count,
            final(self).active_var_count == old(self).active_var_count,
            final(self).f.up_values@ == old(self).f.up_values@,
            final(self).f.local_variables@ == old(self).f.local_variables@,
            final(self).jump_pc == old(self).jump_pc,
            final(self).prev == old(self).prev,
            final(self).block == old(self).block,
            final(self).active_locals@ == old(self).active_locals@,
            final(self).f.constants@.len() >= old(self).f.constants@.len(),
            final(self).f.constants@.len() <= old(self).f.constants@.len() + 1,
    {
        let d = self.discharge2reg(e, reg, line);
        let ghost s1 = self.f.code@;
        let ghost jpc = self.jump_pc;
        let mut tl: Option<usize> = d.t;
        let mut fl: Option<usize> = d.f;
        let ghost tl0 = d.t;
        let is_jump = matches!(d.kind, Kind::Jump(_));
        if let Kind::Jump(pc) = d.kind {
            proof {
                assert(chain_seq(s1, Some(pc)) =~= seq![pc]);
                assert(chain_sep(s1, tl, Some(pc)));
            }
            tl = self.concat_chains(Some(pc), tl);
            proof {
                let s2 = self.f.code@;
                assert(forall|j: usize| chain_seq(s1, fl).contains(j) ==> j < pc);
                assert(!chain_seq(s1, fl).contains(pc));
                lemma_chain_bounds(s1, fl);
                lemma_chain_stable(s1, s2, fl);
                assert(!chain_seq(s1, jpc).contains(pc));
                lemma_chain_bounds(s1, jpc);
                lemma_chain_stable(s1, s2, jpc);
                // the combined true chain stays apart from the false chain
                // and from the pending unconditional jumps
                assert forall|j: usize| #[trigger] chain_seq(s2, tl).contains(j)
                    implies !chain_seq(s2, fl).contains(j)
                        && !chain_seq(s2, jpc).contains(j) by {
                    let combined = chain_seq(s1, tl0) + chain_seq(s1, Some(pc));
                    let k = choose|k: int| 0 <= k < combined.len() && combined[k] == j;
                    if k < chain_seq(s1, tl0).len() {
                        assert(chain_seq(s1, tl0).contains(j));
                    } else {
                        assert(j == pc);
                    }
                }
            }
        }
        if tl.is_some() || fl.is_some() {
            let ghost s2 = self.f.code@;
            let fj: Option<usize> = if is_jump {
                None
            } else {
                let j = self.code_instruction(
                    Instruction { op: OpCode::Jump, a: 0, b: 0, c: 0, jump: None },
                    line,
                );
                Some(j)
            };
            let p_f = self.code_instruction(
                Instruction { op: OpCode::LoadBool, a: reg, b: 0, c: 1, jump: None },
                line,
            );
            let p_t = self.code_instruction(
                Instruction { op: OpCode::LoadBool, a: reg, b: 1, c: 0, jump: None },
                line,
            );
            proof {
                let s3 = self.f.code@;
                lemma_chain_extend(s2, s3, tl);
                lemma_chain_extend(s2, s3, fl);
                lemma_chain_extend(s2, s3, jpc);
                lemma_chain_bounds(s2, tl);
                lemma_chain_bounds(s2, fl);
                lemma_chain_bounds(s2, jpc);
            }
            let ghost s3 = self.f.code@;
            self.patch_list(fl, p_f);
            proof {
                let s4 = self.f.code@;
                assert(forall|j: usize| #[trigger] chain_seq(s3, tl).contains(j)
                    ==> !chain_seq(s3, fl).contains(j) && s4[j as int] == s3[j as int]);
                lemma_chain_stable(s3, s4, tl);
                assert(forall|j: usize| #[trigger] chain_seq(s3, jpc).contains(j)
                    ==> !chain_seq(s3, fl).contains(j) && s4[j as int] == s3[j as int]);
                lemma_chain_stable(s3, s4, jpc);
            }
            let ghost s4 = self.f.code@;
            self.patch_list(tl, p_t);
            proof {
                let s5 = self.f.code@;
                assert(forall|j: usize| #[trigger] chain_seq(s4, jpc).contains(j)
                    ==> !chain_seq(s4, tl).contains(j) && s5[j as int] == s4[j as int]);
                lemma_chain_stable(s4, s5, jpc);
            }
            if let Some(j) = fj {
                let ghost s5 = self.f.code@;
                proof {
                    assert(s5[j as int].jump is None);
                    assert(chain_seq(s5, Some(j)) =~= seq![j]);
                }
                let here = self.f.code.len();
                self.patch_list(Some(j), here);
                proof {
                    let s6 = self.f.code@;
                    assert(forall|k: usize| #[trigger] chain_seq(s5, jpc).contains(k)
                        ==> k != j && s6[k as int] == s5[k as int]);
                    lemma_chain_stable(s5, s6, jpc);
                }
            }
            proof {
                if let Kind::Jump(pc) = d.kind {
                    let fin = self.f.code@;
                    let orig = old(self).f.code@;
                    let n = orig.len() as int;
                    let ts = chain_seq(orig, e.t);
                    let fs = chain_seq(orig, e.f);
                    assert(s1 == orig);
                    // the combined true chain decomposes into the old true
                    // chain plus the pending jump itself
                    assert(chain_seq(s4, tl) == ts + seq![pc]);
                    lemma_concat_membership(ts, seq![pc], chain_seq(s4, tl));
                    assert forall|j: usize| #[trigger] ts.contains(j)
                        implies chain_seq(s4, tl).contains(j) && j < pc by {
                        let k = choose|k: int| 0 <= k < ts.len() && ts[k] == j;
                        assert(chain_seq(s4, tl)[k] == j);
                    }
                    assert(chain_seq(s4, tl).contains(pc)) by {
                        assert(chain_seq(s4, tl)[ts.len() as int] == pc);
                    }
                    lemma_chain_bounds(orig, e.t);
                    lemma_chain_bounds(orig, e.f);
                    // the two loads stand at the end, beyond every patched slot
                    assert(!fs.contains(n as usize) && !fs.contains((n + 1) as usize));
                    assert(!chain_seq(s4, tl).contains(n as usize)
                        && !chain_seq(s4, tl).contains((n + 1) as usize));
                    assert(fin[n] == s3[n]);
                    assert(fin[n + 1] == s3[n + 1]);
                    // the pending jump itself converges on the load-true
                    assert(!fs.contains(pc));
                    assert(s4[pc as int] == s3[pc as int] && s3[pc as int] == s2[pc as int]);
                    assert(fin[pc as int] == s4[pc as int].with_jump(Some(p_t)));
                    assert(fin[pc as int] == orig[pc as int].with_jump(Some(p_t)));
                    // the old true chain converges on the load-true
                    assert forall|j: usize| #[trigger] ts.contains(j)
                        implies fin[j as int] == orig[j as int].with_jump(Some(p_t)) by {
                        assert(!fs.contains(j));
                        assert(s4[j as int] == orig[j as int]);
                    }
                    // the old false chain converges on the load-false
                    assert forall|j: usize| #[trigger] fs.contains(j)
                        implies fin[j as int] == orig[j as int].with_jump(Some(p_f)) by {
                        assert(j != pc);
                        assert(s3[j as int] == orig[j as int]);
                        assert(s4[j as int] == orig[j as int].with_jump(Some(p_f)));
                        assert(!chain_seq(s4, tl).contains(j));
                    }
                    // everything else stands
                    assert forall|i: int| 0 <= i < n && i != pc
                        && !ts.contains(i as usize) && !fs.contains(i as usize)
                        implies fin[i] == orig[i] by {
                        assert(!chain_seq(s4, tl).contains(i as usize));
                        assert(s4[i] == orig[i]);
                    }
                }
            }
        }
        ExprDesc { kind: Kind::NonRelocatable(reg), t: None, f: None }
    }

    /// Materialises an expression into the next free register, which it
    /// allocates (reusing the top of the window when the expression already
    /// held it).
    pub fn expression2next_reg(&mut self, e: &ExprDesc, line: i32) -> (r: ExprDesc)
        requires
            old(self).wf(),
            old(self).expr_wf(*e),
            old(self).expr_apart(*e),
            !(e.kind matches Kind::Void),
            old(self).free_register_count < MAX_REGISTERS,
            old(self).f.constants@.len() < MAX_CONSTANTS,
        ensures
            final(self).wf(),
            final(self).expr_wf(r),
            final(self).expr_apart(r),
            r.t is None,
            r.f is None,
            r.kind == Kind::NonRelocatable((final(self).free_register_count - 1) as usize),
            final(self).free_register_count <= old(self).free_register_count + 1,
            final(self).free_register_count > final(self).active_var_count,
            (e.t is None && e.f is None) ==> (match e.kind {
                Kind::Nil | Kind::True | Kind::False | Kind::Constant(_) | Kind::Number(_) => {
                    &&& discharge_effect(
                        old(self).f.code@,
                        old(self).f.constants@,
                        final(self).f.code@,
                        final(self).f.constants@,
                        *e,
                        old(self).free_register_count,
                    )
                    &&& r.kind == Kind::NonRelocatable(old(self).free_register_count)
                    &&& final(self).free_register_count
                        == old(self).free_register_count + 1
                    &&& final(self).f.code@.len() == old(self).f.code@.len() + 1
                },
                Kind::Relocatable(_) => {
                    &&& discharge_effect(
                        old(self).f.code@,
                        old(self).f.constants@,
                        final(self).f.code@,
                        final(self).f.constants@,
                        *e,
                        old(self).free_register_count,
                    )
                    &&& r.kind == Kind::NonRelocatable(old(self).free_register_count)
                    &&& final(self).free_register_count
                        == old(self).free_register_count + 1
                    &&& final(self).f.code@.len() == old(self).f.code@.len()
                },
                _ => true,
            }),
            final(self).f.code@.len() >= old(self).f.code@.len(),
            final(self).f.max_stack_size >= old(self).f.max_stack_size,
            // a pending boolean is settled by the two canonical boolean
            // loads, with the pending jump and the true chain landing on the
            // load-true and the false chain on the load-false, all paths
            // converging on the fresh register
            (match e.kind {
                Kind::Jump(pc) => {
                    &&& r.kind == Kind::NonRelocatable(old(self).free_register_count)
                    &&& final(self).free_register_count == old(self).free_register_count + 1
                    &&& final(self).f.code@.len() == old(self).f.code@.len() + 2
                    &&& final(self).f.code@[old(self).f.code@.len() as int] == (Instruction {
                        op: OpCode::LoadBool,
                        a: old(self).free_register_count,
                        b: 0,
                        c: 1,
                        jump: None,
                    })
                    &&& final(self).f.code@[old(self).f.code@.len() as int + 1] == (Instruction {
                        op: OpCode::LoadBool,
                        a: old(self).free_register_count,
                        b: 1,
                        c: 0,
                        jump: None,
                    })
                    &&& final(self).f.code@[pc as int]
                        == old(self).f.code@[pc as int].with_jump(
                            Some((old(self).f.code@.len() + 1) as usize),
                        )
                    &&& forall|j: usize| #[trigger] chain_seq(old(self).f.code@, e.t).contains(j)
                        ==> final(self).f.code@[j as int] == old(self).f.code@[j as int]
                            .with_jump(Some((old(self).f.code@.len() + 1) as usize))
                    &&& forall|j: usize| #[trigger] chain_seq(old(self).f.code@, e.f).contains(j)
                        ==> final(self).f.code@[j as int] == old(self).f.code@[j as int]
                            .with_jump(Some(old(self).f.code@.len() as usize))
                    &&& forall|i: int| 0 <= i < old(self).f.code@.len() && i != pc
                        && !chain_seq(old(self).f.code@, e.t).contains(i as usize)
                        && !chain_seq(old(self).f.code@, e.f).contains(i as usize)
                        ==> final(self).f.code@[i] == old(self).f.code@[i]
                    &&& final(self).f.constants@ == old(self).f.constants@
                },
                _ => true,
            }),
            // a call's result slot is reused in place when it is the top
            // temporary, else moved into the fresh register; a vararg has its
            // destination patched to the fresh register
            (e.t is None && e.f is None) ==> (match e.kind {
                Kind::Call(pc) => old(self).f.code@[pc as int].a
                    < old(self).free_register_count ==> {
                    &&& r.kind == Kind::NonRelocatable(
                        (final(self).free_register_count - 1) as usize,
                    )
                    &&& if old(self).f.code@[pc as int].a >= old(self).active_var_count
                        && old(self).f.code@[pc as int].a + 1 == old(self).free_register_count {
                        &&& final(self).f.code@ == old(self).f.code@
                        &&& r.kind == Kind::NonRelocatable(old(self).f.code@[pc as int].a)
                        &&& final(self).free_register_count == old(self).free_register_count
                    } else {
                        &&& final(self).f.code@ == old(self).f.code@.push(Instruction {
                            op: OpCode::Move,
                            a: old(self).free_register_count,
                            b: old(self).f.code@[pc as int].a,
                            c: 0,
                            jump: None,
                        })
                        &&& r.kind == Kind::NonRelocatable(old(self).free_register_count)
                        &&& final(self).free_register_count
                            == old(self).free_register_count + 1
                    }
                },
                Kind::VarArg(pc) => {
                    &&& final(self).f.code@.len() == old(self).f.code@.len()
                    &&& final(self).f.code@[pc as int] == (Instruction {
                        op: old(self).f.code@[pc as int].op,
                        a: old(self).free_register_count,
                        b: 2,
                        c: old(self).f.code@[pc as int].c,
                        jump: old(self).f.code@[pc as int].jump,
                    })
                    &&& r.kind == Kind::NonRelocatable(old(self).free_register_count)
                    &&& final(self).free_register_count == old(self).free_register_count + 1
                },
                _ => true,
            }),
            final(self).active_var_count == old(self).active_var_count,
            final(self).f.up_values@ == old(self).f.up_values@,
            final(self).f.local_variables@ == old(self).f.local_variables@,
            final(self).jump_pc == old(self).jump_pc,
            final(self).prev == old(self).prev,
            final(self).block == old(self).block,
            final(self).active_locals@ == old(self).active_locals@,
            final(self).f.constants@.len() >= old(self).f.constants@.len(),
            final(self).f.constants@.len() <= old(self).f.constants@.len() + 1,
    {
        let d = self.discharge_vars(e, line);
        self.free_expression(&d);
        proof {
            assert(self.wf());
        }
        let reg = self.reserve_register();
        proof {
            assert(self.wf());
            assert(self.expr_wf(d));
            assert(self.expr_apart(d));
        }
        let ghost mid = *self;
        let r = self.expression2reg(&d, reg, line);
        proof {
            if e.t is None && e.f is None {
                if let Kind::VarArg(pc) = e.kind {
                    assert(d.kind == Kind::Relocatable(pc));
                    assert(reg == old(self).free_register_count);
                    assert(mid.f.code@ == old(self).f.code@.update(
                        pc as int,
                        (Instruction { b: 2, ..old(self).f.code@[pc as int] }),
                    ));
                    assert(discharge_effect(
                        mid.f.code@,
                        mid.f.constants@,
                        self.f.code@,
                        self.f.constants@,
                        d,
                        reg,
                    ));
                    assert(self.f.code@ == mid.f.code@.update(
                        pc as int,
                        (Instruction { a: reg, ..mid.f.code@[pc as int] }),
                    ));
                    assert(self.f.code@[pc as int] == (Instruction {
                        op: old(self).f.code@[pc as int].op,
                        a: old(self).free_register_count,
                        b: 2,
                        c: old(self).f.code@[pc as int].c,
                        jump: old(self).f.code@[pc as int].jump,
                    }));
                    assert(self.f.code@.len() == old(self).f.code@.len());
                }
                if let Kind::Call(pc) = e.kind {
                    let a = old(self).f.code@[pc as int].a;
                    if a < old(self).free_register_count {
                        assert(d.kind == Kind::NonRelocatable(a));
                        assert(mid.f.code@ == old(self).f.code@);
                        assert(discharge_effect(
                            mid.f.code@,
                            mid.f.constants@,
                            self.f.code@,
                            self.f.constants@,
                            d,
                            reg,
                        ));
                        if a >= old(self).active_var_count
                            && a + 1 == old(self).free_register_count {
                            assert(reg == a);
                            assert(self.f.code@ == old(self).f.code@);
                        } else {
                            assert(reg == old(self).free_register_count);
                            assert(a != reg);
                            assert(self.f.code@ == old(self).f.code@.push(Instruction {
                                op: OpCode::Move,
                                a: reg,
                                b: a,
                                c: 0,
                                jump: None,
                            }));
                        }
                    }
                }
                match e.kind {
                    Kind::Nil | Kind::True | Kind::False | Kind::Constant(_)
                        | Kind::Relocatable(_) => {
                        assert(d == *e);
                        assert(reg == old(self).free_register_count);
                        assert(mid.f.code@ == old(self).f.code@);
                        assert(mid.f.constants@ == old(self).f.constants@);
                        assert(discharge_effect(mid.f.code@, mid.f.constants@, self.f.code@, self.f.constants@, d, reg));
                        assert(discharge_effect(old(self).f.code@, old(self).f.constants@, self.f.code@, self.f.constants@, *e, reg));
                    }
                    Kind::Number(_) => {
                        assert(d == *e);
                        assert(reg == old(self).free_register_count);
                        assert(mid.f.code@ == old(self).f.code@);
                        assert(mid.f.constants@ == old(self).f.constants@);
                        assert(discharge_effect(mid.f.code@, mid.f.constants@, self.f.code@, self.f.constants@, d, reg));
                        assert(discharge_effect(old(self).f.code@, old(self).f.constants@, self.f.code@, self.f.constants@, *e, reg));
                    }
                    _ => {}
                }
            }
        }
        r
    }

    /// Normalises an expression into one that denotes a concrete,
    /// already-computed register: a plain local or fixed register passes
    /// through unchanged, everything else is materialised into a freshly
    /// allocated register.
    pub fn expression2any_reg(&mut self, e: &ExprDesc, line: i32) -> (r: ExprDesc)
        requires
            old(self).wf(),
            old(self).expr_wf(*e),
            old(self).expr_apart(*e),
            !(e.kind matches Kind::Void),
            old(self).free_register_count < MAX_REGISTERS,
            old(self).f.constants@.len() < MAX_CONSTANTS,
        ensures
            final(self).wf(),
            final(self).expr_wf(r),
            final(self).expr_apart(r),
            r.t is None,
            r.f is None,
            (r.kind matches Kind::NonRelocatable(_)) || (r.kind matches Kind::Local(_)),
            ((e.kind matches Kind::Local(_)) || (e.kind matches Kind::NonRelocatable(_)))
                && e.t is None && e.f is None
                ==> r == *e && *final(self) == *old(self),
            // anything materialised lands in the top register of the window
            !(((e.kind matches Kind::Local(_)) || (e.kind matches Kind::NonRelocatable(_)))
                && e.t is None && e.f is None)
                ==> r.kind == Kind::NonRelocatable(
                    (final(self).free_register_count - 1) as usize,
                ) && final(self).free_register_count > final(self).active_var_count,
            (e.t is None && e.f is None) ==> (match e.kind {
                Kind::Nil | Kind::True | Kind::False | Kind::Constant(_) | Kind::Number(_) => {
                    &&& discharge_effect(
                        old(self).f.code@,
                        old(self).f.constants@,
                        final(self).f.code@,
                        final(self).f.constants@,
                        *e,
                        old(self).free_register_count,
                    )
                    &&& r.kind == Kind::NonRelocatable(old(self).free_register_count)
                    &&& final(self).free_register_count
                        == old(self).free_register_count + 1
                    &&& final(self).f.code@.len() == old(self).f.code@.len() + 1
                },
                Kind::Relocatable(_) => {
                    &&& discharge_effect(
                        old(self).f.code@,
                        old(self).f.constants@,
                        final(self).f.code@,
                        final(self).f.constants@,
                        *e,
                        old(self).free_register_count,
                    )
                    &&& r.kind == Kind::NonRelocatable(old(self).free_register_count)
                    &&& final(self).free_register_count
                        == old(self).free_register_count + 1
                    &&& final(self).f.code@.len() == old(self).f.code@.len()
                },
                _ => true,
            }),
            final(self).free_register_count <= old(self).free_register_count + 1,
            final(self).free_register_count >= old(self).active_var_count,
            final(self).f.code@.len() >= old(self).f.code@.len(),
            final(self).f.max_stack_size >= old(self).f.max_stack_size,
            // a pending boolean converges on a fresh register through the
            // two canonical boolean loads, both chains patched
            (match e.kind {
                Kind::Jump(pc) => {
                    &&& r.kind == Kind::NonRelocatable(old(self).free_register_count)
                    &&& final(self).free_register_count == old(self).free_register_count + 1
                    &&& final(self).f.code@.len() == old(self).f.code@.len() + 2
                    &&& final(self).f.code@[old(self).f.code@.len() as int] == (Instruction {
                        op: OpCode::LoadBool,
                        a: old(self).free_register_count,
                        b: 0,
                        c: 1,
                        jump: None,
                    })
                    &&& final(self).f.code@[old(self).f.code@.len() as int + 1] == (Instruction {
                        op: OpCode::LoadBool,
                        a: old(self).free_register_count,
                        b: 1,
                        c: 0,
                        jump: None,
                    })
                    &&& final(self).f.code@[pc as int]
                        == old(self).f.code@[pc as int].with_jump(
                            Some((old(self).f.code@.len() + 1) as usize),
                        )
                    &&& forall|j: usize| #[trigger] chain_seq(old(self).f.code@, e.t).contains(j)
                        ==> final(self).f.code@[j as int] == old(self).f.code@[j as int]
                            .with_jump(Some((old(self).f.code@.len() + 1) as usize))
                    &&& forall|j: usize| #[trigger] chain_seq(old(self).f.code@, e.f).contains(j)
                        ==> final(self).f.code@[j as int] == old(self).f.code@[j as int]
                            .with_jump(Some(old(self).f.code@.len() as usize))
                    &&& final(self).f.constants@ == old(self).f.constants@
                },
                _ => true,
            }),
            // call results and varargs get their destination fixed to a
            // concrete register
            (e.t is None && e.f is None) ==> (match e.kind {
                Kind::Call(_) | Kind::VarArg(_) => r.kind matches Kind::NonRelocatable(_),
                _ => true,
            }),
            (e.t is None && e.f is None) ==> (match e.kind {
                Kind::VarArg(pc) => {
                    &&& final(self).f.code@.len() == old(self).f.code@.len()
                    &&& final(self).f.code@[pc as int] == (Instruction {
                        op: old(self).f.code@[pc as int].op,
                        a: old(self).free_register_count,
                        b: 2,
                        c: old(self).f.code@[pc as int].c,
                        jump: old(self).f.code@[pc as int].jump,
                    })
                    &&& r.kind == Kind::NonRelocatable(old(self).free_register_count)
                },
                _ => true,
            }),
            final(self).active_var_count == old(self).active_var_count,
            final(self).f.up_values@ == old(self).f.up_values@,
            final(self).f.local_variables@ == old(self).f.local_variables@,
            final(self).jump_pc == old(self).jump_pc,
            final(self).prev == old(self).prev,
            final(self).block == old(self).block,
            final(self).active_locals@ == old(self).active_locals@,
            final(self).f.constants@.len() >= old(self).f.constants@.len(),
            final(self).f.constants@.len() <= old(self).f.constants@.len() + 1,
    {
        let pass = match e.kind {
            Kind::Local(_) | Kind::NonRelocatable(_) => e.t.is_none() && e.f.is_none(),
            _ => false,
        };
        if pass {
            return *e;
        }
        self.expression2next_reg(e, line)
    }

    /// Logical negation.  Negating an expression whose value is pending
    /// control flow is free: the true and false chains swap roles.  A
    /// compile-time constant folds to its opposite.  Anything else is
    /// materialised and a logical-not instruction emitted.
    pub fn encode_not(&mut self, e: &ExprDesc, line: i32) -> (r: ExprDesc)
        requires
            old(self).wf(),
            old(self).expr_wf(*e),
            old(self).expr_apart(*e),
            !(e.kind matches Kind::Void),
            old(self).free_register_count < MAX_REGISTERS,
            old(self).f.constants@.len() < MAX_CONSTANTS,
        ensures
            final(self).wf(),
            e.kind matches Kind::Jump(_) ==> r == e.spec_negated() && *final(self) == *old(self),
            (e.kind == Kind::Nil || e.kind == Kind::False)
                ==> r == (ExprDesc { kind: Kind::True, t: e.f, f: e.t })
                    && *final(self) == *old(self),
            e.kind == Kind::True
                ==> r == (ExprDesc { kind: Kind::False, t: e.f, f: e.t })
                    && *final(self) == *old(self),
            !(e.kind matches Kind::Jump(_)) && e.kind != Kind::Nil && e.kind != Kind::False
                && e.kind != Kind::True
                ==> r == (ExprDesc {
                    kind: Kind::Relocatable((final(self).f.code@.len() - 1) as usize),
                    t: None::<usize>,
                    f: None::<usize>,
                }) && final(self).expr_wf(r)
                    && final(self).f.code@.len() > old(self).f.code@.len()
                    && final(self).f.code@.last().op == OpCode::LogicalNot
                    && final(self).f.line_info@.last() == line,
            // negating a value already in a register emits exactly the one
            // logical-not instruction
            (((e.kind matches Kind::Local(_)) || (e.kind matches Kind::NonRelocatable(_)))
                && e.t is None && e.f is None)
                ==> final(self).f.code@ == old(self).f.code@.push(Instruction {
                    op: OpCode::LogicalNot,
                    a: 0,
                    b: e.kind.spec_reg(),
                    c: 0,
                    jump: None,
                }) && final(self).f.line_info@ == old(self).f.line_info@.push(line),
            final(self).active_var_count == old(self).active_var_count,
            final(self).free_register_count <= old(self).free_register_count,
            final(self).jump_pc == old(self).jump_pc,
            final(self).prev == old(self).prev,
            final(self).block == old(self).block,
    {
        match e.kind {
            Kind::Nil | Kind::False => ExprDesc { kind: Kind::True, t: e.f, f: e.t },
            Kind::True => ExprDesc { kind: Kind::False, t: e.f, f: e.t },
            Kind::Jump(pc) => ExprDesc { kind: Kind::Jump(pc), t: e.f, f: e.t },
            _ => {
                let d = self.expression2any_reg(e, line);
                let r1 = match d.kind {
                    Kind::Local(x) => x,
                    Kind::NonRelocatable(x) => x,
                    _ => {
                        proof {
                            assert(false);
                        }
                        0
                    }
                };
                self.free_expression(&d);
                let ghost mid = self.f.code@;
                let pc = self.code_instruction(
                    Instruction { op: OpCode::LogicalNot, a: 0, b: r1, c: 0, jump: None },
                    line,
                );
                proof {
                    lemma_chain_extend(mid, self.f.code@, self.jump_pc);
                }
                ExprDesc { kind: Kind::Relocatable(pc), t: None, f: None }
            }
        }
    }

    /// Encodes a unary or binary arithmetic-family operation over operands
    /// already free of pending control flow.  Callers keep headroom under the
    /// encoding's register and constant caps (the requires clauses): inside
    /// an expression the encoders do not surface the recoverable overflow
    /// errors that `add_constant` and `declare_local` report at statement
    /// level.  Two pure numeric literals under
    /// a closed arithmetic operator fold at compile time, emitting nothing;
    /// otherwise the operands are materialised, their scratch registers are
    /// reclaimed rightmost-first, and one instruction is emitted whose
    /// destination register is still open.
    pub fn encode_arithmetic(&mut self, op: OpCode, e1: &ExprDesc, e2: &ExprDesc, line: i32) -> (r:
        ExprDesc)
        requires
            old(self).wf(),
            old(self).expr_wf(*e1),
            old(self).expr_wf(*e2),
            op == OpCode::Add || op == OpCode::Sub || op == OpCode::Mul || op == OpCode::Div
                || op == OpCode::Mod || op == OpCode::Concat || op == OpCode::UnaryMinus
                || op == OpCode::Length || op == OpCode::LogicalNot,
            !(e1.kind matches Kind::Void),
            !(e2.kind matches Kind::Void),
            !(e1.kind matches Kind::Jump(_)),
            !(e2.kind matches Kind::Jump(_)),
            e1.t is None,
            e1.f is None,
            e2.t is None,
            e2.f is None,
            old(self).free_register_count + 2 <= MAX_REGISTERS,
            old(self).f.constants@.len() + 2 <= MAX_CONSTANTS,
        ensures
            final(self).wf(),
            // constant folding: a closed operator over two pure literals
            // computes now and emits nothing
            (match (e1.kind, e2.kind) {
                (Kind::Number(n1), Kind::Number(n2)) => {
                    &&& (op == OpCode::Add && i64::MIN <= n1 + n2 <= i64::MAX)
                        ==> r == (ExprDesc {
                            kind: Kind::Number((n1 + n2) as i64),
                            t: None::<usize>,
                            f: None::<usize>,
                        }) && *final(self) == *old(self)
                    &&& (op == OpCode::Sub && i64::MIN <= n1 - n2 <= i64::MAX)
                        ==> r == (ExprDesc {
                            kind: Kind::Number((n1 - n2) as i64),
                            t: None::<usize>,
                            f: None::<usize>,
                        }) && *final(self) == *old(self)
                    &&& (op == OpCode::Mul && i64::MIN <= n1 * n2 <= i64::MAX)
                        ==> r == (ExprDesc {
                            kind: Kind::Number((n1 * n2) as i64),
                            t: None::<usize>,
                            f: None::<usize>,
                        }) && *final(self) == *old(self)
                },
                _ => true,
            }),
            r.t is None,
            r.f is None,
            (r.kind matches Kind::Relocatable(_)) || (r.kind matches Kind::Number(_)),
            // when nothing folds, the result is the instruction just
            // emitted, its destination register still open, and its source
            // line is recorded
            !spec_folds(op, *e1, *e2) ==> r == (ExprDesc {
                kind: Kind::Relocatable((final(self).f.code@.len() - 1) as usize),
                t: None::<usize>,
                f: None::<usize>,
            }) && final(self).f.code@.len() > old(self).f.code@.len()
                && final(self).f.code@.last().op == op
                && final(self).f.line_info@.last() == line
                && final(self).expr_wf(r),
            spec_folds(op, *e1, *e2) ==> *final(self) == *old(self),
            r.kind matches Kind::Relocatable(_) ==> final(self).expr_wf(r)
                && final(self).f.code@.len() > old(self).f.code@.len()
                && final(self).f.code@.last().op == op,
            // a unary operator over an operand already in a register emits
            // exactly the one instruction
            ((op == OpCode::UnaryMinus || op == OpCode::Length || op == OpCode::LogicalNot)
                && ((e1.kind matches Kind::Local(_))
                    || (e1.kind matches Kind::NonRelocatable(_))))
                ==> final(self).f.code@ == old(self).f.code@.push(
                    Instruction { op, a: 0, b: e1.kind.spec_reg(), c: 0, jump: None },
                ) && final(self).f.line_info@ == old(self).f.line_info@.push(line),
            // a unary operator over an unmaterialised constant emits exactly
            // one load and then the one instruction
            ((op == OpCode::UnaryMinus || op == OpCode::Length)
                && (e1.kind matches Kind::Constant(_)))
                ==> final(self).f.code@.len() == old(self).f.code@.len() + 2
                    && final(self).f.code@[old(self).f.code@.len() as int].op
                        == OpCode::LoadConstant,
            // a binary operator over operands already in registers emits
            // exactly the one instruction naming both
            ((op == OpCode::Add || op == OpCode::Sub || op == OpCode::Mul || op == OpCode::Div
                || op == OpCode::Mod || op == OpCode::Concat)
                && ((e1.kind matches Kind::Local(_))
                    || (e1.kind matches Kind::NonRelocatable(_)))
                && ((e2.kind matches Kind::Local(_))
                    || (e2.kind matches Kind::NonRelocatable(_))))
                ==> final(self).f.code@ == old(self).f.code@.push(Instruction {
                    op,
                    a: 0,
                    b: e1.kind.spec_reg(),
                    c: e2.kind.spec_reg(),
                    jump: None,
                }) && final(self).f.line_info@ == old(self).f.line_info@.push(line),
            // consumed operand scratch registers are reclaimed
            final(self).free_register_count <= old(self).free_register_count,
            final(self).active_var_count == old(self).active_var_count,
            final(self).jump_pc == old(self).jump_pc,
            final(self).prev == old(self).prev,
            final(self).block == old(self).block,
    {
        let foldable = matches!(op, OpCode::Add | OpCode::Sub | OpCode::Mul);
        if foldable && e1.is_numeral() && e2.is_numeral() {
            let n1 = match e1.kind {
                Kind::Number(x) => x,
                _ => {
                    proof {
                        assert(false);
                    }
                    0
                }
            };
            let n2 = match e2.kind {
                Kind::Number(x) => x,
                _ => {
                    proof {
                        assert(false);
                    }
                    0
                }
            };
            let folded = match op {
                OpCode::Add => n1.checked_add(n2),
                OpCode::Sub => n1.checked_sub(n2),
                OpCode::Mul => n1.checked_mul(n2),
                _ => {
                    proof {
                        assert(false);
                    }
                    None
                }
            };
            if let Some(v) = folded {
                return ExprDesc::new(Kind::Number(v));
            }
        }
        let unary = matches!(op, OpCode::UnaryMinus | OpCode::Length | OpCode::LogicalNot);
        if unary {
            let d1 = self.expression2any_reg(e1, line);
            let r1 = match d1.kind {
                Kind::Local(x) => x,
                Kind::NonRelocatable(x) => x,
                _ => {
                    proof {
                        assert(false);
                    }
                    0
                }
            };
            self.free_expression(&d1);
            let ghost mid = self.f.code@;
            let pc = self.code_instruction(
                Instruction { op, a: 0, b: r1, c: 0, jump: None },
                line,
            );
            proof {
                lemma_chain_extend(mid, self.f.code@, self.jump_pc);
            }
            return ExprDesc { kind: Kind::Relocatable(pc), t: None, f: None };
        }
        let d1 = self.expression2any_reg(e1, line);
        let d2 = self.expression2any_reg(e2, line);
        let r1 = match d1.kind {
            Kind::Local(x) => x,
            Kind::NonRelocatable(x) => x,
            _ => {
                proof {
                    assert(false);
                }
                0
            }
        };
        let r2 = match d2.kind {
            Kind::Local(x) => x,
            Kind::NonRelocatable(x) => x,
            _ => {
                proof {
                    assert(false);
                }
                0
            }
        };
        self.free_expression(&d2);
        self.free_expression(&d1);
        let ghost mid = self.f.code@;
        let pc = self.code_instruction(Instruction { op, a: 0, b: r1, c: r2, jump: None }, line);
        proof {
            lemma_chain_extend(mid, self.f.code@, self.jump_pc);
        }
        ExprDesc { kind: Kind::Relocatable(pc), t: None, f: None }
    }

    /// Encodes a unary operator: minus folds a pure numeric literal at
    /// compile time and otherwise materialises and negates; logical not
    /// delegates to `encode_not`; length materialises and measures.
    pub fn prefix(&mut self, op: Opr, sub: &ExprDesc, line: i32) -> (r: ExprDesc)
        requires
            old(self).wf(),
            old(self).expr_wf(*sub),
            old(self).expr_apart(*sub),
            op == Opr::Minus || op == Opr::Not || op == Opr::Length,
            !(sub.kind matches Kind::Void),
            old(self).free_register_count + 3 <= MAX_REGISTERS,
            old(self).f.constants@.len() + 3 <= MAX_CONSTANTS,
        ensures
            final(self).wf(),
            // folding: negating a pure literal yields the opposite literal
            // with nothing emitted
            (op == Opr::Minus && sub.spec_is_numeral()) ==> (match sub.kind {
                Kind::Number(n) => n > i64::MIN ==> r == (ExprDesc {
                    kind: Kind::Number((-(n as int)) as i64),
                    t: None::<usize>,
                    f: None::<usize>,
                }) && *final(self) == *old(self),
                _ => true,
            }),
            // minus over anything that does not fold materialises the
            // operand and emits one unary-minus, the result the instruction
            // just emitted
            (op == Opr::Minus && !(sub.spec_is_numeral() && (match sub.kind {
                Kind::Number(n) => n > i64::MIN,
                _ => false,
            }))) ==> r == (ExprDesc {
                kind: Kind::Relocatable((final(self).f.code@.len() - 1) as usize),
                t: None::<usize>,
                f: None::<usize>,
            }) && final(self).f.code@.len() > old(self).f.code@.len()
                && final(self).f.code@.last().op == OpCode::UnaryMinus,
            // negating a value already in a register emits exactly the one
            // unary-minus instruction
            (op == Opr::Minus && !sub.spec_is_numeral()
                && ((sub.kind matches Kind::Local(_))
                    || (sub.kind matches Kind::NonRelocatable(_)))
                && sub.t is None && sub.f is None)
                ==> final(self).f.code@.len() == old(self).f.code@.len() + 1
                    && final(self).f.code@.last().op == OpCode::UnaryMinus,
            // negating an unmaterialised constant emits exactly one load and
            // one unary-minus instruction
            (op == Opr::Minus && (sub.kind matches Kind::Constant(_))
                && sub.t is None && sub.f is None)
                ==> final(self).f.code@.len() == old(self).f.code@.len() + 2
                    && final(self).f.code@[old(self).f.code@.len() as int].op
                        == OpCode::LoadConstant
                    && final(self).f.code@.last().op == OpCode::UnaryMinus,
            // the length operator materialises and measures, the result the
            // instruction just emitted
            op == Opr::Length ==> r == (ExprDesc {
                kind: Kind::Relocatable((final(self).f.code@.len() - 1) as usize),
                t: None::<usize>,
                f: None::<usize>,
            }) && final(self).f.code@.len() > old(self).f.code@.len()
                && final(self).f.code@.last().op == OpCode::Length,
            (op == Opr::Length
                && ((sub.kind matches Kind::Local(_))
                    || (sub.kind matches Kind::NonRelocatable(_)))
                && sub.t is None && sub.f is None)
                ==> final(self).f.code@ == old(self).f.code@.push(Instruction {
                    op: OpCode::Length,
                    a: 0,
                    b: sub.kind.spec_reg(),
                    c: 0,
                    jump: None,
                }),
            (op == Opr::Length && (sub.kind matches Kind::Constant(_))
                && sub.t is None && sub.f is None)
                ==> final(self).f.code@.len() == old(self).f.code@.len() + 2
                    && final(self).f.code@[old(self).f.code@.len() as int].op
                        == OpCode::LoadConstant,
            // logical not of anything that does not fold emits a logical-not
            // instruction
            (op == Opr::Not && !(sub.kind matches Kind::Jump(_)) && sub.kind != Kind::Nil
                && sub.kind != Kind::False && sub.kind != Kind::True)
                ==> r == (ExprDesc {
                    kind: Kind::Relocatable((final(self).f.code@.len() - 1) as usize),
                    t: None::<usize>,
                    f: None::<usize>,
                }) && final(self).f.code@.last().op == OpCode::LogicalNot,
            // logical negation of pending control flow swaps the jump chains
            // and emits nothing
            op == Opr::Not && (sub.kind matches Kind::Jump(_))
                ==> r == sub.spec_negated() && *final(self) == *old(self),
            (op == Opr::Not && (sub.kind == Kind::Nil || sub.kind == Kind::False))
                ==> r == (ExprDesc { kind: Kind::True, t: sub.f, f: sub.t })
                    && *final(self) == *old(self),
            (op == Opr::Not && sub.kind == Kind::True)
                ==> r == (ExprDesc { kind: Kind::False, t: sub.f, f: sub.t })
                    && *final(self) == *old(self),
            final(self).active_var_count == old(self).active_var_count,
            final(self).prev == old(self).prev,
            final(self).block == old(self).block,
    {
        match op {
            Opr::Minus => {
                if sub.is_numeral() {
                    let n = match sub.kind {
                        Kind::Number(x) => x,
                        _ => {
                            proof {
                                assert(false);
                            }
                            0
                        }
                    };
                    if n > i64::MIN {
                        return ExprDesc::new(Kind::Number(-n));
                    }
                }
                let e1 = self.expression2any_reg(sub, line);
                let e2 = ExprDesc::new(Kind::Number(0));
                self.encode_arithmetic(OpCode::UnaryMinus, &e1, &e2, line)
            }
            Opr::Not => self.encode_not(sub, line),
            Opr::Length => {
                let e1 = self.expression2any_reg(sub, line);
                let e2 = ExprDesc::new(Kind::Number(0));
                self.encode_arithmetic(OpCode::Length, &e1, &e2, line)
            }
            _ => {
                proof {
                    assert(false);
                }
                ExprDesc::new(Kind::Void)
            }
        }
    }

    /// Emits the test-and-jump for a value that must be checked against
    /// `cond` at run time, returning the pc of the pending jump.  The
    /// operand's own chains are left untouched.
    fn jump_on_cond(&mut self, e: &ExprDesc, cond: bool, line: i32) -> (pc: usize)
        requires
            old(self).wf(),
            old(self).expr_wf(*e),
            !(e.kind matches Kind::Void),
            !(e.kind matches Kind::Jump(_)),
            !(e.kind matches Kind::Local(_)),
            !(e.kind matches Kind::UpValue(_)),
            !(e.kind matches Kind::Indexed(_, _, _)),
            !(e.kind matches Kind::Call(_)),
            !(e.kind matches Kind::VarArg(_)),
            old(self).free_register_count < MAX_REGISTERS,
            old(self).f.constants@.len() < MAX_CONSTANTS,
        ensures
            final(self).wf(),
            pc == final(self).f.code@.len() - 1,
            pc >= old(self).f.code@.len(),
            final(self).f.code@.len() > old(self).f.code@.len(),
            final(self).f.code@.len() <= old(self).f.code@.len() + 2,
            final(self).f.code@.last().op == OpCode::TestJump,
            final(self).f.code@[pc as int].jump is None,
            forall|i: int| 0 <= i < old(self).f.code@.len()
                ==> final(self).f.code@[i].jump == old(self).f.code@[i].jump,
            chain_wf(final(self).f.code@, e.t),
            chain_wf(final(self).f.code@, e.f),
            chain_seq(final(self).f.code@, e.t) == chain_seq(old(self).f.code@, e.t),
            chain_seq(final(self).f.code@, e.f) == chain_seq(old(self).f.code@, e.f),
            chain_seq(final(self).f.code@, final(self).jump_pc)
                == chain_seq(old(self).f.code@, old(self).jump_pc),
            // the operand already in a register costs no extra instruction
            (e.kind matches Kind::NonRelocatable(_))
                ==> (match e.kind {
                    Kind::NonRelocatable(r0) => final(self).f.code@ == old(self).f.code@.push(
                        Instruction {
                            op: OpCode::TestJump,
                            a: (if cond { 1 } else { 0 }),
                            b: r0,
                            c: 0,
                            jump: None,
                        },
                    ),
                    _ => true,
                }),
            final(self).free_register_count <= old(self).free_register_count,
            final(self).active_var_count == old(self).active_var_count,
            final(self).jump_pc == old(self).jump_pc,
            final(self).prev == old(self).prev,
            final(self).block == old(self).block,
            final(self).f.constants@.len() >= old(self).f.constants@.len(),
            final(self).f.constants@.len() <= old(self).f.constants@.len() + 1,
    {
        let ghost orig = self.f.code@;
        let reg = match e.kind {
            Kind::NonRelocatable(r0) => r0,
            _ => {
                let fresh = self.reserve_register();
                let d = self.discharge2reg(e, fresh, line);
                fresh
            }
        };
        self.free_register(reg);
        let ghost mid = self.f.code@;
        let flag: usize = if cond {
            1
        } else {
            0
        };
        let pc = self.code_instruction(
            Instruction { op: OpCode::TestJump, a: flag, b: reg, c: 0, jump: None },
            line,
        );
        proof {
            lemma_chain_bounds(orig, e.t);
            lemma_chain_bounds(orig, e.f);
            lemma_chain_bounds(orig, old(self).jump_pc);
            lemma_chain_stable(orig, self.f.code@, e.t);
            lemma_chain_stable(orig, self.f.code@, e.f);
            lemma_chain_stable(orig, self.f.code@, old(self).jump_pc);
        }
        pc
    }

    /// Encodes a comparison: one comparison instruction over the two
    /// materialised operands followed by one conditional jump, whose pending
    /// pc becomes the boolean result.
    fn encode_comparison(&mut self, op: Opr, e1: &ExprDesc, e2: &ExprDesc, line: i32) -> (r:
        ExprDesc)
        requires
            old(self).wf(),
            old(self).expr_wf(*e1),
            old(self).expr_wf(*e2),
            op == Opr::Equal || op == Opr::NotEqual || op == Opr::Less || op == Opr::LessEqual
                || op == Opr::Greater || op == Opr::GreaterEqual,
            !(e1.kind matches Kind::Void),
            !(e2.kind matches Kind::Void),
            !(e1.kind matches Kind::Jump(_)),
            !(e2.kind matches Kind::Jump(_)),
            e1.t is None,
            e1.f is None,
            e2.t is None,
            e2.f is None,
            old(self).free_register_count + 2 <= MAX_REGISTERS,
            old(self).f.constants@.len() + 2 <= MAX_CONSTANTS,
        ensures
            final(self).wf(),
            final(self).expr_wf(r),
            final(self).expr_apart(r),
            r.t is None,
            r.f is None,
            r.kind == Kind::Jump((final(self).f.code@.len() - 1) as usize),
            final(self).f.code@.len() > old(self).f.code@.len() + 1,
            final(self).f.code@.last().op == OpCode::Jump,
            final(self).f.code@[final(self).f.code@.len() - 2].op == (match op {
                Opr::Equal | Opr::NotEqual => OpCode::Equal,
                Opr::Less | Opr::Greater => OpCode::LessThan,
                _ => OpCode::LessEqual,
            }),
            // two locals compare with exactly one comparison instruction and
            // one conditional jump
            (((e1.kind matches Kind::Local(_)) || (e1.kind matches Kind::NonRelocatable(_)))
                && ((e2.kind matches Kind::Local(_))
                    || (e2.kind matches Kind::NonRelocatable(_))))
                ==> final(self).f.code@.len() == old(self).f.code@.len() + 2,
            final(self).active_var_count == old(self).active_var_count,
            final(self).jump_pc == old(self).jump_pc,
            final(self).prev == old(self).prev,
            final(self).block == old(self).block,
    {
        let d1 = self.expression2any_reg(e1, line);
        let d2 = self.expression2any_reg(e2, line);
        let r1 = match d1.kind {
            Kind::Local(x) => x,
            Kind::NonRelocatable(x) => x,
            _ => {
                proof {
                    assert(false);
                }
                0
            }
        };
        let r2 = match d2.kind {
            Kind::Local(x) => x,
            Kind::NonRelocatable(x) => x,
            _ => {
                proof {
                    assert(false);
                }
                0
            }
        };
        self.free_expression(&d2);
        self.free_expression(&d1);
        let (cmp_op, flag, b, c): (OpCode, usize, usize, usize) = match op {
            Opr::Equal => (OpCode::Equal, 1, r1, r2),
            Opr::NotEqual => (OpCode::Equal, 0, r1, r2),
            Opr::Less => (OpCode::LessThan, 1, r1, r2),
            Opr::LessEqual => (OpCode::LessEqual, 1, r1, r2),
            Opr::Greater => (OpCode::LessThan, 1, r2, r1),
            _ => (OpCode::LessEqual, 1, r2, r1),
        };
        let ghost mid = self.f.code@;
        self.code_instruction(Instruction { op: cmp_op, a: flag, b, c, jump: None }, line);
        let j = self.code_instruction(
            Instruction { op: OpCode::Jump, a: 0, b: 0, c: 0, jump: None },
            line,
        );
        proof {
            lemma_chain_extend(mid, self.f.code@, self.jump_pc);
            lemma_chain_bounds(self.f.code@, self.jump_pc);
        }
        ExprDesc { kind: Kind::Jump(j), t: None, f: None }
    }

    /// Receives the left operand of a binary operator before the right one is
    /// parsed.  For the short-circuit operators this is where the conditional
    /// jump over the right-hand side is emitted and the left operand's chains
    /// are threaded; an arithmetic operand stays unmaterialised only while it
    /// may still fold.
    #[verifier::rlimit(100)]
    #[verifier::spinoff_prover]
    pub fn infix(&mut self, op: Opr, e: &ExprDesc, line: i32) -> (r: ExprDesc)
        requires
            old(self).wf(),
            old(self).expr_wf(*e),
            old(self).expr_apart(*e),
            !(e.kind matches Kind::Void),
            op != Opr::Minus && op != Opr::Not && op != Opr::Length,
            old(self).free_register_count + 2 <= MAX_REGISTERS,
            old(self).f.constants@.len() + 2 <= MAX_CONSTANTS,
        ensures
            final(self).wf(),
            final(self).expr_wf(r),
            final(self).expr_apart(r),
            // an arithmetic operand that may fold is kept as it stands
            ((op == Opr::Add || op == Opr::Sub || op == Opr::Mul || op == Opr::Div
                || op == Opr::Mod) && e.spec_is_numeral())
                ==> r == *e && *final(self) == *old(self),
            op == Opr::And ==> r.t is None,
            op == Opr::Or ==> r.f is None,
            // entering `and`: the left operand's false chain grows by the
            // jump over the right-hand side (none for an always-true left,
            // the pending jump itself for a boolean left, a fresh test for
            // everything else)
            op == Opr::And ==> (match e.kind {
                Kind::Constant(_) | Kind::Number(_) | Kind::True => chain_seq(
                    final(self).f.code@,
                    r.f,
                ) == chain_seq(old(self).f.code@, e.f),
                Kind::Jump(pc) => chain_seq(final(self).f.code@, r.f)
                    == chain_seq(old(self).f.code@, e.f).push(pc),
                _ => chain_seq(final(self).f.code@, r.f)
                    == chain_seq(old(self).f.code@, e.f).push(
                        (final(self).f.code@.len() - 1) as usize,
                    ) && final(self).f.code@.last().op == OpCode::TestJump,
            }),
            // and its true chain falls through to where the right-hand side
            // begins
            op == Opr::And ==> forall|j: usize|
                #[trigger] chain_seq(old(self).f.code@, e.t).contains(j)
                    ==> final(self).f.code@[j as int].jump
                        == Some(final(self).f.code@.len() as usize),
            // entering `or`, symmetrically on the true chain
            op == Opr::Or ==> (match e.kind {
                Kind::Nil | Kind::False => chain_seq(final(self).f.code@, r.t)
                    == chain_seq(old(self).f.code@, e.t),
                Kind::Jump(pc) => chain_seq(final(self).f.code@, r.t)
                    == chain_seq(old(self).f.code@, e.t).push(pc),
                _ => chain_seq(final(self).f.code@, r.t)
                    == chain_seq(old(self).f.code@, e.t).push(
                        (final(self).f.code@.len() - 1) as usize,
                    ) && final(self).f.code@.last().op == OpCode::TestJump,
            }),
            op == Opr::Or ==> forall|j: usize|
                #[trigger] chain_seq(old(self).f.code@, e.f).contains(j)
                    ==> final(self).f.code@[j as int].jump
                        == Some(final(self).f.code@.len() as usize),
            // entering `and` with a plain local costs exactly one
            // test-and-jump, which starts the result's false chain
            (op == Opr::And && e.t is None && e.f is None) ==> (match e.kind {
                Kind::Local(r0) => final(self).f.code@ == old(self).f.code@.push(Instruction {
                    op: OpCode::TestJump,
                    a: 0,
                    b: r0,
                    c: 0,
                    jump: None,
                }) && r == (ExprDesc {
                    kind: Kind::Void,
                    t: None::<usize>,
                    f: Some(old(self).f.code@.len() as usize),
                }),
                _ => true,
            }),
            (op == Opr::Or && e.t is None && e.f is None) ==> (match e.kind {
                Kind::Local(r0) => final(self).f.code@ == old(self).f.code@.push(Instruction {
                    op: OpCode::TestJump,
                    a: 1,
                    b: r0,
                    c: 0,
                    jump: None,
                }) && r == (ExprDesc {
                    kind: Kind::Void,
                    t: Some(old(self).f.code@.len() as usize),
                    f: None::<usize>,
                }),
                _ => true,
            }),
            ((op == Opr::Concat || op == Opr::Add || op == Opr::Sub || op == Opr::Mul
                || op == Opr::Div || op == Opr::Mod || op == Opr::Equal || op == Opr::NotEqual
                || op == Opr::Less || op == Opr::LessEqual || op == Opr::Greater
                || op == Opr::GreaterEqual) && !e.spec_is_numeral())
                ==> r.t is None && r.f is None && !(r.kind matches Kind::Jump(_))
                    && !(r.kind matches Kind::Void),
            ((op == Opr::Add || op == Opr::Sub || op == Opr::Mul || op == Opr::Div
                || op == Opr::Mod || op == Opr::Equal || op == Opr::NotEqual || op == Opr::Less
                || op == Opr::LessEqual || op == Opr::Greater || op == Opr::GreaterEqual)
                && e.spec_is_numeral())
                ==> r == *e && *final(self) == *old(self),
            final(self).active_var_count == old(self).active_var_count,
            final(self).free_register_count <= old(self).free_register_count + 1,
            final(self).prev == old(self).prev,
            final(self).block == old(self).block,
            final(self).f.constants@.len() <= old(self).f.constants@.len() + 1,
    {
        match op {
            Opr::And => {
                let d = self.discharge_vars(e, line);
                let ghost s1 = self.f.code@;
                let ghost jpc = self.jump_pc;
                let pf: Option<usize> = match d.kind {
                    Kind::Constant(_) | Kind::Number(_) | Kind::True => None,
                    Kind::Jump(pc) => Some(pc),
                    _ => Some(self.jump_on_cond(&d, false, line)),
                };
                let ghost s2 = self.f.code@;
                proof {
                    lemma_chain_bounds(s2, d.t);
                    lemma_chain_bounds(s2, d.f);
                    lemma_chain_bounds(s2, jpc);
                    if let Some(p) = pf {
                        assert(s2[p as int].jump is None);
                        assert(chain_seq(s2, pf) =~= seq![p]);
                        assert(chain_sep(s2, d.f, pf)) by {
                            if !(d.kind matches Kind::Jump(_)) {
                                assert(forall|j: usize|
                                    #[trigger] chain_seq(s2, d.f).contains(j) ==> j < s1.len());
                            }
                        }
                        assert(!chain_seq(s2, d.t).contains(p));
                        assert(!chain_seq(s2, jpc).contains(p));
                    }
                }
                let newf = self.concat_chains(pf, d.f);
                let ghost s3 = self.f.code@;
                proof {
                    assert(forall|j: usize| #[trigger] chain_seq(s2, d.t).contains(j)
                        ==> s3[j as int].jump == s2[j as int].jump);
                    lemma_chain_stable(s2, s3, d.t);
                    assert(forall|j: usize| #[trigger] chain_seq(s2, jpc).contains(j)
                        ==> s3[j as int].jump == s2[j as int].jump);
                    lemma_chain_stable(s2, s3, jpc);
                    lemma_concat_membership(
                        chain_seq(s2, d.f),
                        chain_seq(s2, pf),
                        chain_seq(s3, newf),
                    );
                }
                let here = self.get_label();
                self.patch_list(d.t, here);
                proof {
                    let now = self.f.code@;
                    assert(forall|j: usize| #[trigger] chain_seq(s3, newf).contains(j)
                        ==> !chain_seq(s3, d.t).contains(j)
                            && now[j as int].jump == s3[j as int].jump);
                    lemma_chain_stable(s3, now, newf);
                    assert(forall|j: usize| #[trigger] chain_seq(s3, jpc).contains(j)
                        ==> !chain_seq(s3, d.t).contains(j)
                            && now[j as int].jump == s3[j as int].jump);
                    lemma_chain_stable(s3, now, jpc);
                }
                ExprDesc { kind: Kind::Void, t: None, f: newf }
            }
            Opr::Or => {
                let d = self.discharge_vars(e, line);
                let ghost s1 = self.f.code@;
                let ghost jpc = self.jump_pc;
                let pt: Option<usize> = match d.kind {
                    Kind::Nil | Kind::False => None,
                    Kind::Jump(pc) => Some(pc),
                    _ => Some(self.jump_on_cond(&d, true, line)),
                };
                let ghost s2 = self.f.code@;
                proof {
                    lemma_chain_bounds(s2, d.t);
                    lemma_chain_bounds(s2, d.f);
                    lemma_chain_bounds(s2, jpc);
                    if let Some(p) = pt {
                        assert(s2[p as int].jump is None);
                        assert(chain_seq(s2, pt) =~= seq![p]);
                        assert(chain_sep(s2, d.t, pt)) by {
                            if !(d.kind matches Kind::Jump(_)) {
                                assert(forall|j: usize|
                                    #[trigger] chain_seq(s2, d.t).contains(j) ==> j < s1.len());
                            }
                        }
                        assert(!chain_seq(s2, d.f).contains(p));
                        assert(!chain_seq(s2, jpc).contains(p));
                    }
                }
                let newt = self.concat_chains(pt, d.t);
                let ghost s3 = self.f.code@;
                proof {
                    assert(forall|j: usize| #[trigger] chain_seq(s2, d.f).contains(j)
                        ==> s3[j as int].jump == s2[j as int].jump);
                    lemma_chain_stable(s2, s3, d.f);
                    assert(forall|j: usize| #[trigger] chain_seq(s2, jpc).contains(j)
                        ==> s3[j as int].jump == s2[j as int].jump);
                    lemma_chain_stable(s2, s3, jpc);
                    lemma_concat_membership(
                        chain_seq(s2, d.t),
                        chain_seq(s2, pt),
                        chain_seq(s3, newt),
                    );
                }
                let here = self.get_label();
                self.patch_list(d.f, here);
                proof {
                    let now = self.f.code@;
                    assert(forall|j: usize| #[trigger] chain_seq(s3, newt).contains(j)
                        ==> !chain_seq(s3, d.f).contains(j)
                            && now[j as int].jump == s3[j as int].jump);
                    lemma_chain_stable(s3, now, newt);
                    assert(forall|j: usize| #[trigger] chain_seq(s3, jpc).contains(j)
                        ==> !chain_seq(s3, d.f).contains(j)
                            && now[j as int].jump == s3[j as int].jump);
                    lemma_chain_stable(s3, now, jpc);
                }
                ExprDesc { kind: Kind::Void, t: newt, f: None }
            }
            Opr::Concat => self.expression2next_reg(e, line),
            _ => {
                if e.is_numeral() {
                    *e
                } else {
                    self.expression2any_reg(e, line)
                }
            }
        }
    }

    /// Completes a binary operator once both operands are known: arithmetic
    /// and concatenation encode an instruction (or fold), comparisons encode
    /// a test and a pending jump, and the short-circuit operators merge the
    /// deferred jump chains started in `infix` with the right operand.
    #[verifier::rlimit(100)]
    #[verifier::spinoff_prover]
    pub fn postfix(&mut self, op: Opr, e1: &ExprDesc, e2: &ExprDesc, line: i32) -> (r: ExprDesc)
        requires
            old(self).wf(),
            old(self).expr_wf(*e1),
            old(self).expr_wf(*e2),
            old(self).expr_apart(*e1),
            old(self).expr_apart(*e2),
            !(e2.kind matches Kind::Void),
            op != Opr::Minus && op != Opr::Not && op != Opr::Length,
            op == Opr::And ==> e1.t is None
                && chain_sep(old(self).f.code@, e1.f, e2.f)
                && chain_disjoint(old(self).f.code@, e1.f, e2.t)
                && (match e2.kind {
                    Kind::Jump(pc2) => chain_all_below(old(self).f.code@, e1.f, pc2),
                    _ => true,
                }),
            op == Opr::Or ==> e1.f is None
                && chain_sep(old(self).f.code@, e1.t, e2.t)
                && chain_disjoint(old(self).f.code@, e1.t, e2.f)
                && (match e2.kind {
                    Kind::Jump(pc2) => chain_all_below(old(self).f.code@, e1.t, pc2),
                    _ => true,
                }),
            (op != Opr::And && op != Opr::Or) ==> !(e1.kind matches Kind::Void)
                && !(e1.kind matches Kind::Jump(_)) && e1.t is None && e1.f is None,
            old(self).free_register_count + 3 <= MAX_REGISTERS,
            old(self).f.constants@.len() + 3 <= MAX_CONSTANTS,
        ensures
            final(self).wf(),
            final(self).expr_wf(r),
            // completing `and` against a right operand already in a register
            // merely merges the false chains, no instruction emitted
            (op == Opr::And && e2.t is None && e2.f is None) ==> (match e2.kind {
                Kind::Local(r0) => r == (ExprDesc {
                    kind: Kind::NonRelocatable(r0),
                    t: None::<usize>,
                    f: e1.f,
                }) && *final(self) == *old(self),
                _ => true,
            }),
            (op == Opr::Or && e2.t is None && e2.f is None) ==> (match e2.kind {
                Kind::Local(r0) => r == (ExprDesc {
                    kind: Kind::NonRelocatable(r0),
                    t: e1.t,
                    f: None::<usize>,
                }) && *final(self) == *old(self),
                _ => true,
            }),
            // completing `and` in general: the result is the discharged
            // right operand, its false chain the left operand's spliced
            // before the right's
            op == Opr::And ==> r.t == e2.t
                && chain_seq(final(self).f.code@, r.f)
                    == chain_seq(old(self).f.code@, e1.f)
                        + chain_seq(old(self).f.code@, e2.f)
                && (match e2.kind {
                    Kind::Local(x) => r.kind == Kind::NonRelocatable(x),
                    Kind::UpValue(_) => r.kind
                        == Kind::Relocatable(old(self).f.code@.len() as usize),
                    Kind::Indexed(_, _, _) => r.kind
                        == Kind::Relocatable(old(self).f.code@.len() as usize),
                    Kind::Call(pc) => r.kind
                        == Kind::NonRelocatable(old(self).f.code@[pc as int].a),
                    Kind::VarArg(pc) => r.kind == Kind::Relocatable(pc),
                    _ => r.kind == e2.kind,
                }),
            op == Opr::Or ==> r.f == e2.f
                && chain_seq(final(self).f.code@, r.t)
                    == chain_seq(old(self).f.code@, e1.t)
                        + chain_seq(old(self).f.code@, e2.t)
                && (match e2.kind {
                    Kind::Local(x) => r.kind == Kind::NonRelocatable(x),
                    Kind::UpValue(_) => r.kind
                        == Kind::Relocatable(old(self).f.code@.len() as usize),
                    Kind::Indexed(_, _, _) => r.kind
                        == Kind::Relocatable(old(self).f.code@.len() as usize),
                    Kind::Call(pc) => r.kind
                        == Kind::NonRelocatable(old(self).f.code@[pc as int].a),
                    Kind::VarArg(pc) => r.kind == Kind::Relocatable(pc),
                    _ => r.kind == e2.kind,
                }),
            // concatenation encodes one instruction, the result relocatable
            op == Opr::Concat ==> r == (ExprDesc {
                kind: Kind::Relocatable((final(self).f.code@.len() - 1) as usize),
                t: None::<usize>,
                f: None::<usize>,
            }) && final(self).f.code@.len() > old(self).f.code@.len()
                && final(self).f.code@.last().op == OpCode::Concat,
            // a comparison leaves its boolean pending on the jump it emitted
            (op == Opr::Equal || op == Opr::NotEqual || op == Opr::Less || op == Opr::LessEqual
                || op == Opr::Greater || op == Opr::GreaterEqual)
                ==> r == (ExprDesc {
                    kind: Kind::Jump((final(self).f.code@.len() - 1) as usize),
                    t: None::<usize>,
                    f: None::<usize>,
                }) && final(self).f.code@.last().op == OpCode::Jump,
            // arithmetic that does not fold leaves the instruction just
            // emitted
            ((op == Opr::Add || op == Opr::Sub || op == Opr::Mul || op == Opr::Div
                || op == Opr::Mod) && !(e1.spec_is_numeral() && e2.spec_is_numeral()))
                ==> r == (ExprDesc {
                    kind: Kind::Relocatable((final(self).f.code@.len() - 1) as usize),
                    t: None::<usize>,
                    f: None::<usize>,
                }),
            // arithmetic folding carries through
            (match (e1.kind, e2.kind) {
                (Kind::Number(n1), Kind::Number(n2)) => {
                    &&& (op == Opr::Add && e1.spec_is_numeral() && e2.spec_is_numeral()
                        && i64::MIN <= n1 + n2 <= i64::MAX)
                        ==> r == (ExprDesc {
                            kind: Kind::Number((n1 + n2) as i64),
                            t: None::<usize>,
                            f: None::<usize>,
                        }) && *final(self) == *old(self)
                    &&& (op == Opr::Sub && e1.spec_is_numeral() && e2.spec_is_numeral()
                        && i64::MIN <= n1 - n2 <= i64::MAX)
                        ==> r == (ExprDesc {
                            kind: Kind::Number((n1 - n2) as i64),
                            t: None::<usize>,
                            f: None::<usize>,
                        }) && *final(self) == *old(self)
                    &&& (op == Opr::Mul && e1.spec_is_numeral() && e2.spec_is_numeral()
                        && i64::MIN <= n1 * n2 <= i64::MAX)
                        ==> r == (ExprDesc {
                            kind: Kind::Number((n1 * n2) as i64),
                            t: None::<usize>,
                            f: None::<usize>,
                        }) && *final(self) == *old(self)
                },
                _ => true,
            }),
            // comparing two locals costs one comparison instruction and one
            // conditional jump, the boolean result left pending
            ((op == Opr::Equal || op == Opr::NotEqual || op == Opr::Less || op == Opr::LessEqual
                || op == Opr::Greater || op == Opr::GreaterEqual)
                && ((e1.kind matches Kind::Local(_))
                    || (e1.kind matches Kind::NonRelocatable(_)))
                && ((e2.kind matches Kind::Local(_))
                    || (e2.kind matches Kind::NonRelocatable(_)))
                && e2.t is None && e2.f is None)
                ==> final(self).f.code@.len() == old(self).f.code@.len() + 2
                    && final(self).f.code@.last().op == OpCode::Jump
                    && final(self).f.code@[final(self).f.code@.len() - 2].op == (match op {
                        Opr::Equal | Opr::NotEqual => OpCode::Equal,
                        Opr::Less | Opr::Greater => OpCode::LessThan,
                        _ => OpCode::LessEqual,
                    })
                    && r == (ExprDesc {
                        kind: Kind::Jump((old(self).f.code@.len() + 1) as usize),
                        t: None::<usize>,
                        f: None::<usize>,
                    }),
            final(self).active_var_count == old(self).active_var_count,
            final(self).prev == old(self).prev,
            final(self).block == old(self).block,
    {
        match op {
            Opr::And => {
                let ghost pre = self.f.code@;
                let d2 = self.discharge_vars(e2, line);
                let ghost s1 = self.f.code@;
                let ghost jpc = self.jump_pc;
                proof {
                    lemma_chain_bounds(pre, e1.f);
                    lemma_chain_stable(pre, s1, e1.f);
                    lemma_chain_bounds(s1, d2.t);
                    lemma_chain_bounds(s1, jpc);
                }
                let merged = self.concat_chains(d2.f, e1.f);
                let ghost s2 = self.f.code@;
                proof {
                    assert(forall|j: usize| #[trigger] chain_seq(s1, d2.t).contains(j)
                        ==> !chain_seq(s1, d2.f).contains(j)
                            && s2[j as int].jump == s1[j as int].jump);
                    lemma_chain_stable(s1, s2, d2.t);
                    assert(forall|j: usize| #[trigger] chain_seq(s1, jpc).contains(j)
                        ==> !chain_seq(s1, d2.f).contains(j)
                            && s2[j as int].jump == s1[j as int].jump);
                    lemma_chain_stable(s1, s2, jpc);
                    lemma_concat_membership(
                        chain_seq(s1, e1.f),
                        chain_seq(s1, d2.f),
                        chain_seq(s2, merged),
                    );
                    if let Kind::Jump(pc2) = d2.kind {
                        assert(!chain_seq(s1, d2.f).contains(pc2));
                        assert(s2[pc2 as int].jump is None);
                    }
                }
                ExprDesc { kind: d2.kind, t: d2.t, f: merged }
            }
            Opr::Or => {
                let ghost pre = self.f.code@;
                let d2 = self.discharge_vars(e2, line);
                let ghost s1 = self.f.code@;
                let ghost jpc = self.jump_pc;
                proof {
                    lemma_chain_bounds(pre, e1.t);
                    lemma_chain_stable(pre, s1, e1.t);
                    lemma_chain_bounds(s1, d2.f);
                    lemma_chain_bounds(s1, jpc);
                }
                let merged = self.concat_chains(d2.t, e1.t);
                let ghost s2 = self.f.code@;
                proof {
                    assert(forall|j: usize| #[trigger] chain_seq(s1, d2.f).contains(j)
                        ==> !chain_seq(s1, d2.t).contains(j)
                            && s2[j as int].jump == s1[j as int].jump);
                    lemma_chain_stable(s1, s2, d2.f);
                    assert(forall|j: usize| #[trigger] chain_seq(s1, jpc).contains(j)
                        ==> !chain_seq(s1, d2.t).contains(j)
                            && s2[j as int].jump == s1[j as int].jump);
                    lemma_chain_stable(s1, s2, jpc);
                    lemma_concat_membership(
                        chain_seq(s1, e1.t),
                        chain_seq(s1, d2.t),
                        chain_seq(s2, merged),
                    );
                    if let Kind::Jump(pc2) = d2.kind {
                        assert(!chain_seq(s1, d2.t).contains(pc2));
                        assert(s2[pc2 as int].jump is None);
                    }
                }
                ExprDesc { kind: d2.kind, t: merged, f: d2.f }
            }
            Opr::Equal | Opr::NotEqual | Opr::Less | Opr::LessEqual | Opr::Greater
                | Opr::GreaterEqual => {
                let m2 = if e2.is_numeral() {
                    *e2
                } else {
                    self.expression2any_reg(e2, line)
                };
                self.encode_comparison(op, e1, &m2, line)
            }
            _ => {
                let opc = match op {
                    Opr::Add => OpCode::Add,
                    Opr::Sub => OpCode::Sub,
                    Opr::Mul => OpCode::Mul,
                    Opr::Div => OpCode::Div,
                    Opr::Mod => OpCode::Mod,
                    Opr::Concat => OpCode::Concat,
                    _ => {
                        proof {
                            assert(false);
                        }
                        OpCode::Add
                    }
                };
                let m2 = if e2.is_numeral() {
                    *e2
                } else {
                    self.expression2any_reg(e2, line)
                };
                self.encode_arithmetic(opc, e1, &m2, line)
            }
        }
    }
}

} // verus!
