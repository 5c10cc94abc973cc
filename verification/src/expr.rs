//! Expression descriptors: where a computed value currently lives, plus the
//! pending boolean jump chains attached to it.

use vstd::prelude::*;

verus! {

/// Whether the table operand of an indexed expression is a local register or
/// an upvalue slot of the current closure.
#[derive(Clone, Copy, Debug, PartialEq, Eq, Structural)]
pub enum TableType {
    Local,
    UpVal,
}

/// What value an expression denotes and where that value physically resides
/// at the current point of compilation.
#[derive(Clone, Copy, Debug, PartialEq, Eq, Structural)]
pub enum Kind {
    /// No value (statement context).
    Void,
    Nil,
    True,
    False,
    /// Value already interned in the constant table at this index.
    Constant(usize),
    /// Unmaterialised numeric literal, eligible for constant folding.
    Number(i64),
    /// Value sits in a fixed register.
    NonRelocatable(usize),
    /// Value is a named local variable's register.
    Local(usize),
    /// Value comes from the enclosing closure's upvalue table.
    UpValue(usize),
    /// Value is `table[key]`: table type, table slot, key slot.
    Indexed(TableType, usize, usize),
    /// Boolean result of the pending test-and-jump instruction at this pc.
    Jump(usize),
    /// Produced by the instruction at this pc, whose destination register is
    /// not yet fixed.
    Relocatable(usize),
    /// Value(s) come from the call instruction at this pc.
    Call(usize),
    /// Value(s) come from the vararg instruction at this pc.
    VarArg(usize),
}

/// Operator tokens handed over by the parser.
#[derive(Clone, Copy, Debug, PartialEq, Eq, Structural)]
pub enum Opr {
    Minus,
    Not,
    Length,
    Add,
    Sub,
    Mul,
    Div,
    Mod,
    Concat,
    Equal,
    NotEqual,
    Less,
    LessEqual,
    Greater,
    GreaterEqual,
    And,
    Or,
}

/// A compile-time constant value, interned into the constant table of the
/// prototype under construction.  Two syntactically equal literals share one
/// constant slot (equality is by value).
#[derive(Clone, Debug)]
pub enum Value {
    Nil,
    Bool(bool),
    Number(i64),
    Str(String),
}

/// Value equality, the relation the constant table deduplicates by: same
/// variant and equal payload, strings compared by their characters.
pub open spec fn val_eq(a: Value, b: Value) -> bool {
    match (a, b) {
        (Value::Nil, Value::Nil) => true,
        (Value::Bool(x), Value::Bool(y)) => x == y,
        (Value::Number(x), Value::Number(y)) => x == y,
        (Value::Str(x), Value::Str(y)) => x@ == y@,
        _ => false,
    }
}

impl Value {
    /// Decides `val_eq`, the relation the constant table deduplicates by.
    pub fn same(&self, other: &Value) -> (r: bool)
        ensures
            r == val_eq(*self, *other),
    {
        match (self, other) {
            (Value::Nil, Value::Nil) => true,
            (Value::Bool(a), Value::Bool(b)) => *a == *b,
            (Value::Number(a), Value::Number(b)) => *a == *b,
            (Value::Str(a), Value::Str(b)) => *a == *b,
            _ => false,
        }
    }
}

/// An expression descriptor: the kind of the value together with the heads of
/// the pending true-jump and false-jump chains, threaded through the jump
/// fields of not-yet-patched instructions in the output stream.  `None` marks
/// an empty chain.
#[derive(Clone, Copy, Debug)]
pub struct ExprDesc {
    pub kind: Kind,
    pub t: Option<usize>,
    pub f: Option<usize>,
}

impl Kind {
    /// The register a value already sitting in one occupies.
    pub open spec fn spec_reg(self) -> usize {
        match self {
            Kind::Local(r) => r,
            Kind::NonRelocatable(r) => r,
            _ => 0,
        }
    }
}

impl ExprDesc {
    /// A fresh descriptor with no pending jumps.
    pub fn new(kind: Kind) -> (r: ExprDesc)
        ensures
            r == (ExprDesc { kind, t: None::<usize>, f: None::<usize> }),
    {
        ExprDesc { kind, t: None, f: None }
    }

    /// Whether this descriptor has a pending jump chain attached.
    pub open spec fn spec_has_jumps(self) -> bool {
        self.t is Some || self.f is Some
    }

    /// A literal is pure only if no boolean control flow is attached to it.
    pub open spec fn spec_is_numeral(self) -> bool {
        self.kind is Number && self.t is None && self.f is None
    }

    /// True iff the descriptor is a `Number` with both jump chains empty;
    /// gates constant folding before real instructions are emitted.
    pub fn is_numeral(&self) -> (r: bool)
        ensures
            r == self.spec_is_numeral(),
    {
        if let Kind::Number(_) = self.kind {
            self.t.is_none() && self.f.is_none()
        } else {
            false
        }
    }

    /// The descriptor with its true and false chains exchanged: the effect of
    /// logical negation on an expression whose value is pending control flow.
    pub open spec fn spec_negated(self) -> ExprDesc {
        ExprDesc { t: self.f, f: self.t, ..self }
    }
}

} // verus!
