//! Small verified programs: a ranked-pairs election tabulator and its
//! companions (plurality and runoff voting, ciphers, change making, a Forth
//! interpreter, arbitrary-precision decimals, sorting, a spell-checking hash
//! table, bitmap and WAV headers and more).

pub mod bank;
pub mod caesar;
pub mod cash;
pub mod credit;
pub mod decimal;
pub mod dna;
pub mod forth;
pub mod helpers;
pub mod img;
pub mod inheritance;
pub mod jar;
pub mod mario;
pub mod plurality;
mod random;
pub mod reachability;
pub mod readability;
pub mod recover;
pub mod runoff;
pub mod scrabble;
pub mod seven_day_average;
pub mod sort;
pub mod speller;
pub mod substitution;
pub mod tally;
pub mod text;
pub mod tideman;
pub mod volume;
pub mod world_cup;
