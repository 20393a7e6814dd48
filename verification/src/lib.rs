pub mod ast;
pub mod builder;
pub mod positions;
pub mod sets;
pub mod automaton;
pub mod laws;

pub use ast::{Regex, findLambda, count_leaves};
pub use builder::{ParseTree, ClassItem, RegexError, parse_to_AST, getQuantified, getLQuantified,
    build_class, getStateLabels};
pub use positions::{augment, constructP, constructD, constructF, addstates};
pub use automaton::{Automaton, compile, check, checkstate, checkstr};
