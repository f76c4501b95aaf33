//! Runtime facilities the compiler knows about.

mod primitives;
pub use primitives::{
    Primitive, PrimitiveId, PrimitiveRegistry, lemma_primitive_from_index,
    lemma_primitive_index_round, primitive_names,
};
