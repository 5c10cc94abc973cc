//! Laws relating the code generator's operations, proved once and for all.
//!
//! Register discipline itself needs no lemma here: `enter_block` demands and
//! `leave_block` and `declare_local` re-establish, in their contracts, that
//! the free-register count equals the active-variable count at every
//! statement boundary.

use vstd::prelude::*;
use crate::expr::{ExprDesc, Value, val_eq};
use crate::code::{
    first_constant_match, has_constant, first_upval_match, has_upval_named, UpValueDesc,
};

verus! {

/// Constant deduplication: two syntactically equal literals resolve to the
/// same constant-table slot, so a table never holds a value twice.
pub proof fn lemma_constant_dedup(cs: Seq<Value>, v1: Value, v2: Value, i1: int, i2: int)
    requires
        val_eq(v1, v2),
        first_constant_match(cs, v1, i1),
        first_constant_match(cs, v2, i2),
    ensures
        i1 == i2,
{
    if i1 < i2 {
        assert(val_eq(cs[i1], v2));
    } else if i2 < i1 {
        assert(val_eq(cs[i2], v1));
    }
}

/// Interning a literal the table lacks puts it at the end, and a second
/// interning of an equal literal finds exactly that slot: one entry serves
/// all equal literals of a function.
pub proof fn lemma_interning_idempotent(cs: Seq<Value>, v: Value)
    requires
        !has_constant(cs, v),
    ensures
        first_constant_match(cs.push(v), v, cs.len() as int),
{
    let cs2 = cs.push(v);
    assert(val_eq(cs2[cs.len() as int], v));
    assert forall|j: int| 0 <= j < cs.len() implies !val_eq(#[trigger] cs2[j], v) by {
        assert(cs2[j] == cs[j]);
    }
}

/// Negation round-trip: negating an expression whose value is pending
/// control flow swaps its true and false chains, so negating twice restores
/// the original chain assignment exactly.
pub proof fn lemma_double_negation(e: ExprDesc)
    ensures
        e.spec_negated().spec_negated() == e,
{
}

/// Upvalue deduplication: two lookups of the same name in one function's
/// upvalue table land on the same descriptor index.
pub proof fn lemma_upval_dedup(uvs: Seq<UpValueDesc>, name: Seq<char>, i1: int, i2: int)
    requires
        first_upval_match(uvs, name, i1),
        first_upval_match(uvs, name, i2),
    ensures
        i1 == i2,
{
}

/// Appending a descriptor under a name the table lacks makes its slot the
/// one that any later lookup of that name finds: resolving the same free
/// variable twice appends exactly one descriptor.
pub proof fn lemma_upval_interning(uvs: Seq<UpValueDesc>, d: UpValueDesc)
    requires
        !has_upval_named(uvs, d.name@),
    ensures
        first_upval_match(uvs.push(d), d.name@, uvs.len() as int),
{
    let u2 = uvs.push(d);
    assert forall|j: int| 0 <= j < uvs.len() implies (#[trigger] u2[j].name@) != d.name@ by {
        assert(u2[j] == uvs[j]);
    }
}

} // verus!
