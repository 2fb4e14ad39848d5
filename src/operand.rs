//! Operands of instructions: what a foreign value handle resolves to.

use std::collections::HashMap;

use vstd::prelude::*;

use crate::handle::Handle;
use crate::iterators::{decides, holds_on};

verus! {

/// The name of a local value: a textual name, or the implicit number that
/// stands where no name was given.
#[derive(PartialEq, Eq, Clone, Debug, Hash)]
pub enum Name {
    Name(String),
    Number(usize),
}

impl Name {
    /// An equal, owned copy of the name.
    pub fn copied(&self) -> (r: Name)
        ensures
            r == *self,
    {
        match self {
            Name::Name(s) => Name::Name(s.clone()),
            Name::Number(n) => Name::Number(*n),
        }
    }
}

/// A type, as an entry of the type table that the type translation owns.
#[derive(Clone, Copy, Debug, PartialEq, Eq, Hash, Structural)]
pub struct TypeRef {
    pub id: usize,
}

/// A constant, as an entry of the table that the constant translation owns.
#[derive(Clone, Copy, Debug, PartialEq, Eq, Hash, Structural)]
pub struct ConstantRef {
    pub id: usize,
}

/// The names of a function's local values, keyed by the address of each
/// value's handle.
pub type ValToNameMap = HashMap<usize, Name>;

/// A value that an instruction takes as input; exactly one of these kinds.
#[derive(PartialEq, Clone, Debug)]
pub enum Operand {
    /// A local value, such as `i32 %foo`.
    LocalOperand { name: Name, ty: TypeRef },
    /// A constant, global references such as `@foo` included.
    ConstantOperand(ConstantRef),
    /// A metadata value; its contents are not modelled.
    MetadataOperand,
}

/// `r` is what `operand` resolves to, given the answers of the foreign
/// predicates and the two translations, with `names` the local names:
/// a constant first, else metadata, else a named local value.
pub open spec fn resolves<
    C: Fn(Handle) -> bool,
    M: Fn(Handle) -> bool,
    K: Fn(Handle) -> ConstantRef,
    T: Fn(Handle) -> TypeRef,
>(
    operand: Handle,
    names: Map<usize, Name>,
    is_constant: C,
    is_metadata: M,
    translate_constant: K,
    type_of: T,
    r: Operand,
) -> bool {
    match r {
        Operand::ConstantOperand(c) => {
            &&& is_constant.ensures((operand,), true)
            &&& translate_constant.ensures((operand,), c)
        },
        Operand::MetadataOperand => {
            &&& is_constant.ensures((operand,), false)
            &&& is_metadata.ensures((operand,), true)
        },
        Operand::LocalOperand { name, ty } => {
            &&& is_constant.ensures((operand,), false)
            &&& is_metadata.ensures((operand,), false)
            &&& names.contains_key(operand.addr)
            &&& name == names[operand.addr]
            &&& type_of.ensures((operand,), ty)
        },
    }
}

impl Operand {
    /// Resolves the value behind `operand`. `is_constant` and `is_metadata`
    /// are the foreign predicates, asked in that order; `translate_constant`
    /// translates a constant, `type_of` gives a local value's type. A local
    /// value must already be named in `vnmap`.
    pub fn from_llvm_ref<
        C: Fn(Handle) -> bool,
        M: Fn(Handle) -> bool,
        K: Fn(Handle) -> ConstantRef,
        T: Fn(Handle) -> TypeRef,
    >(
        operand: Handle,
        vnmap: &ValToNameMap,
        is_constant: C,
        is_metadata: M,
        translate_constant: K,
        type_of: T,
    ) -> (r: Operand)
        requires
            is_constant.requires((operand,)),
            is_metadata.requires((operand,)),
            translate_constant.requires((operand,)),
            type_of.requires((operand,)),
            is_constant.ensures((operand,), false) && is_metadata.ensures((operand,), false)
                ==> vnmap@.contains_key(operand.addr),
        ensures
            resolves(operand, vnmap@, is_constant, is_metadata, translate_constant, type_of, r),
    {
        broadcast use vstd::std_specs::hash::group_hash_axioms;

        if is_constant(operand) {
            Operand::ConstantOperand(translate_constant(operand))
        } else if is_metadata(operand) {
            Operand::MetadataOperand
        } else {
            let name = match vnmap.get(&operand.addr) {
                Some(n) => n.copied(),
                None => {
                    proof {
                        assert(false);
                    }
                    Name::Number(0)
                },
            };
            Operand::LocalOperand { name, ty: type_of(operand) }
        }
    }

    /// The operand's type: a local value's own type, what `type_of_constant`
    /// gives for a constant, and `metadata_type` for metadata.
    pub fn get_type<K: Fn(ConstantRef) -> TypeRef>(
        &self,
        type_of_constant: K,
        metadata_type: TypeRef,
    ) -> (r: TypeRef)
        requires
            forall|c: ConstantRef| #[trigger] type_of_constant.requires((c,)),
        ensures
            match *self {
                Operand::LocalOperand { ty, .. } => r == ty,
                Operand::ConstantOperand(c) => type_of_constant.ensures((c,), r),
                Operand::MetadataOperand => r == metadata_type,
            },
    {
        match self {
            Operand::LocalOperand { ty, .. } => *ty,
            Operand::ConstantOperand(c) => type_of_constant(*c),
            Operand::MetadataOperand => metadata_type,
        }
    }
}

/// Classification goes by priority: where the foreign predicates answer
/// consistently, a constant always resolves to a constant operand, whatever
/// the other predicate says or the names hold; a non-constant metadata value
/// to the metadata operand; and only what is neither to a local operand.
pub proof fn lemma_classification_order<
    C: Fn(Handle) -> bool,
    M: Fn(Handle) -> bool,
    K: Fn(Handle) -> ConstantRef,
    T: Fn(Handle) -> TypeRef,
>(
    operand: Handle,
    names: Map<usize, Name>,
    is_constant: C,
    is_metadata: M,
    translate_constant: K,
    type_of: T,
    r: Operand,
)
    requires
        decides(is_constant),
        decides(is_metadata),
        resolves(operand, names, is_constant, is_metadata, translate_constant, type_of, r),
    ensures
        holds_on(is_constant, operand) <==> r is ConstantOperand,
        !holds_on(is_constant, operand) && holds_on(is_metadata, operand) <==> r is MetadataOperand,
        !holds_on(is_constant, operand) && !holds_on(is_metadata, operand) <==> r is LocalOperand,
{
}

/// A handle that the local names lack never resolves to a local operand,
/// so no local operand carries a made-up name; and where the foreign
/// predicates answer consistently that it is neither a constant nor
/// metadata, no operand at all is its resolution: resolving it can only
/// fail, never return.
pub proof fn lemma_unnamed_local_unresolvable<
    C: Fn(Handle) -> bool,
    M: Fn(Handle) -> bool,
    K: Fn(Handle) -> ConstantRef,
    T: Fn(Handle) -> TypeRef,
>(
    operand: Handle,
    names: Map<usize, Name>,
    is_constant: C,
    is_metadata: M,
    translate_constant: K,
    type_of: T,
)
    requires
        !names.contains_key(operand.addr),
    ensures
        forall|r: Operand|
            #[trigger] resolves(
                operand,
                names,
                is_constant,
                is_metadata,
                translate_constant,
                type_of,
                r,
            ) ==> !(r is LocalOperand),
        decides(is_constant) && decides(is_metadata) && !holds_on(is_constant, operand)
            && !holds_on(is_metadata, operand) ==> forall|r: Operand|
            !#[trigger] resolves(
                operand,
                names,
                is_constant,
                is_metadata,
                translate_constant,
                type_of,
                r,
            ),
{
}

} // verus!
