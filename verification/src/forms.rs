//! What the forms of the language are read as, over the parts that they are made of.
//!
//! Each law here says of a form: where its parts stand in a script, with the tokens of the form
//! around them, the form is a part itself, and its node holds the nodes of its parts.

pub mod assignments;
pub mod blocks;
pub mod calls;
pub mod conditions;
pub mod faults;
pub mod functions;
pub mod lines;
pub mod lists;
pub mod lookups;
pub mod loops;
pub mod maps;
pub mod operands;
pub mod ranges;
pub mod scripts;
pub mod sequences;
pub mod terms;
