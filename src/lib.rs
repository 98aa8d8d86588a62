use vstd::prelude::*;

pub mod number;
pub mod tokenizer;
pub mod ast;
pub mod lisp;
pub mod builtins;

verus! {
}
