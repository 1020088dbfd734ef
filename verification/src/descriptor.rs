//! The vocabulary of recovered parameter types, with its mathematical model.
use vstd::prelude::*;

verus! {

/// A recovered parameter type: scalar kinds, fixed-width kinds, and
/// composites built bottom-up from the signature grammar.
#[derive(Debug, PartialEq, Eq)]
pub enum TypeDescriptor {
    Address,
    Bool,
    String,
    Bytes,
    FixedBytes(usize),
    Int(usize),
    Uint(usize),
    Array(Box<TypeDescriptor>),
    FixedArray(Box<TypeDescriptor>, usize),
    Tuple(Vec<TypeDescriptor>),
}

/// The mathematical shape of a `TypeDescriptor`: the same tree with
/// mathematical integers and sequences in place of machine types.
pub enum TypeModel {
    Address,
    Bool,
    String,
    Bytes,
    FixedBytes(nat),
    Int(nat),
    Uint(nat),
    Array(Box<TypeModel>),
    FixedArray(Box<TypeModel>, nat),
    Tuple(Seq<TypeModel>),
}

impl TypeDescriptor {
    /// The model of a descriptor tree.
    pub open spec fn model(self) -> TypeModel
        decreases self,
        via Self::model_decreases
    {
        match self {
            TypeDescriptor::Address => TypeModel::Address,
            TypeDescriptor::Bool => TypeModel::Bool,
            TypeDescriptor::String => TypeModel::String,
            TypeDescriptor::Bytes => TypeModel::Bytes,
            TypeDescriptor::FixedBytes(n) => TypeModel::FixedBytes(n as nat),
            TypeDescriptor::Int(n) => TypeModel::Int(n as nat),
            TypeDescriptor::Uint(n) => TypeModel::Uint(n as nat),
            TypeDescriptor::Array(e) => TypeModel::Array(Box::new(e.model())),
            TypeDescriptor::FixedArray(e, n) => TypeModel::FixedArray(
                Box::new(e.model()),
                n as nat,
            ),
            TypeDescriptor::Tuple(es) => TypeModel::Tuple(models_of(es@)),
        }
    }

    #[via_fn]
    proof fn model_decreases(self) {
        broadcast use vstd::std_specs::vec::axiom_vec_decreases_to_view;

        if let TypeDescriptor::Tuple(es) = self {
            assert(decreases_to!(es => es@));
            assert(decreases_to!(self => es));
        }
    }
}

/// The models of a list of descriptors, in order.
pub open spec fn models_of(s: Seq<TypeDescriptor>) -> Seq<TypeModel>
    decreases s,
    via models_of_decreases
{
    if s.len() == 0 {
        Seq::empty()
    } else {
        models_of(s.drop_last()).push(s.last().model())
    }
}

#[via_fn]
proof fn models_of_decreases(s: Seq<TypeDescriptor>) {
    if s.len() > 0 {
        vstd::seq::axiom_seq_index_decreases(s, s.len() - 1);
        vstd::seq::axiom_seq_subrange_decreases(s, 0, s.len() - 1);
        assert(s.drop_last() == s.subrange(0, s.len() - 1));
        assert(s.last() == s[s.len() - 1]);
    }
}

/// `models_of` taken pointwise: the model of element `i` stands at `i`.
pub proof fn lemma_models_of(s: Seq<TypeDescriptor>)
    ensures
        models_of(s).len() == s.len(),
        forall|i: int| 0 <= i < s.len() ==> models_of(s)[i] == #[trigger] s[i].model(),
    decreases s.len(),
{
    if s.len() > 0 {
        lemma_models_of(s.drop_last());
        assert forall|i: int| 0 <= i < s.len() implies models_of(s)[i] == #[trigger] s[i].model() by {
            if i < s.len() - 1 {
                assert(s.drop_last()[i] == s[i]);
            } else {
                assert(s.last() == s[i]);
            }
        }
    }
}

/// Appending a descriptor appends its model.
pub proof fn lemma_models_of_push(s: Seq<TypeDescriptor>, d: TypeDescriptor)
    ensures
        models_of(s.push(d)) == models_of(s).push(d.model()),
{
    assert(s.push(d).drop_last() =~= s);
    assert(s.push(d).last() == d);
}

} // verus!
