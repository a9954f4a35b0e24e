//! Name mining for the name arena game: the key schedule that turns a
//! team and a name into a permutation, the attributes and skills derived
//! from it, the stream cipher used by the battle engine, and the
//! bookkeeping of the work distributed among the mining threads.
pub mod median;
pub mod perm;
pub mod sort;
pub mod text;
pub mod decimal;
pub mod name;
pub mod name_laws;
pub mod rc4;
pub mod cacluate;
pub mod command;
pub mod classic;
pub mod player;
pub mod engine;
pub mod works;
pub mod cli;
pub mod evaluate;
