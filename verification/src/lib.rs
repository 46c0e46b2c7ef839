//! Church numerals, closure-style total maps, and Peano naturals.
//!
//! The heart of the crate is [`church`]: natural numbers represented not as
//! machine integers but as descriptions of `n`-fold composition of an
//! endofunction, with arithmetic defined by composing such descriptions and a
//! decoder that recovers the machine integer by evaluating them.

pub mod church;
pub mod map;
pub mod peano;
