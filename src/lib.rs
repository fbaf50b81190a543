//! Dice mechanics for tabletop role-playing games: parsing dice expressions
//! such as `2d6`, rolling groups of dice, and generating ability-score blocks
//! by rolling four six-sided dice and dropping the lowest.

pub mod dice;
pub mod parse;
mod random;
pub mod roll;
pub mod stats;

pub use dice::{DiceToRoll, Die};
pub use parse::ParseError;
pub use roll::{roll_dice, roll_dice_from, total_fits, RolledDice, RolledDiceBatch};
pub use stats::{gen_stats, stats_from_draws};
