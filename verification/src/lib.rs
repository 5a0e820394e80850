//! A coverage-guided, structure-aware fuzzing core: typed mutators that
//! synthesize, mutate and restore values of a search space, grammar-driven
//! syntax-tree generation, a coverage sensor over plain counter buffers,
//! and the data structures used to index observed coverage features.

mod args;
mod ast_mutator;
mod char_mutator;
mod data_structures;
mod either;
mod grammar;
mod grammar_compile;
mod hbitset;
mod map_sensor;
mod minify;
mod mutator;
mod sensor;
mod string_mutator;

pub use args::{string_from_args, Arguments, CompiledTarget, FuzzerCommand};
pub use ast_mutator::{
    arena_wf, ast_matches, lemma_ast_mutator_cache, lemma_ast_mutator_cplx,
    lemma_ast_mutator_token_fits, lemma_ast_mutator_undo, lemma_ast_mutator_valid,
    lemma_ast_mutator_wf, lemma_min_cplx, mins_consistent, ASTMutator, ASTMutatorArbitraryStep,
    ASTMutatorCache, ASTMutatorMutationStep, ASTMutatorUnmutateToken, MutatorNode,
};
pub use char_mutator::{binary_search_arbitrary_u32, CharWithinRangeMutator};
pub use data_structures::{LargeStepFindIter, Slab, SlabKey, WeightedIndex};
pub use either::Either;
pub use grammar::{
    ast_complexity, ast_duplicate, ast_to_string, class_has, generate_string_in,
    grammar_ill_formed, grammar_matches, grammar_matches_list, grammar_matches_rep, Grammar, AST,
};
pub use grammar_compile::{compiled, grammar_based_ast_mutator, lemma_compiled_equiv, stack_describes};
pub use hbitset::HBitSet;
pub use map_sensor::{MapSensor, SaveToStatsFolder, Sensor, WrapperSensor};
pub use minify::{
    confirm_failure, cplx_le_exec, parse_complexity, parse_decimal, simplest_input_file, stem_end,
    Complexity,
};
pub use mutator::Mutator;
pub use sensor::{
    collected_features, counts_sum, filter_records, filtered, lemma_cleared_silent,
    lemma_retained_discriminating,
    name_key, prefix_counts, retained, retained_counts, CodeCoverageSensor, Counter, Coverage,
    CoverageMap, ExpressionCounter, Feature, Function, FunctionRecord, Region,
};
pub use string_mutator::ASTStringMutator;
