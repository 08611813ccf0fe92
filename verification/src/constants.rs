use vstd::prelude::*;

verus! {

/// Number of faces on a die.
pub const SIDES: usize = 6;

/// Number of dice rolled each turn.
pub const DICE_COUNT: usize = 6;

/// Dice of each face needed on the upper section to stay on bonus pace.
pub const BONUS_COUNT: u32 = 4;

/// Upper-section score at which the bonus is paid:
/// `BONUS_COUNT` dice of every face, `4 * (1 + 2 + ... + 6) = 84`.
pub const BONUS_LIMIT: u32 = 84;

/// One-time bonus paid when the upper-section score reaches `BONUS_LIMIT`.
pub const BONUS: u32 = 50;

/// Number of rerolls allowed after the first roll of a turn.
pub const REROLL_COUNT: usize = 2;

/// Mask with one bit per die face.
pub const SIDES_MASK: u8 = 0x3F;

/// Index of a scoring combination row.
pub type Comb = usize;

/// One pair.
pub const S2: Comb = 0;

/// Two pairs.
pub const S22: Comb = 1;

/// Three pairs.
pub const S222: Comb = 2;

/// Three of a kind.
pub const S3: Comb = 3;

/// Four of a kind.
pub const S4: Comb = 4;

/// Two three-of-a-kinds of distinct faces.
pub const S33: Comb = 5;

/// Low straight, faces 1 through 5.
pub const R15: Comb = 6;

/// High straight, faces 2 through 6.
pub const R26: Comb = 7;

/// Full straight, faces 1 through 6.
pub const R16: Comb = 8;

/// A pair plus a three-of-a-kind.
pub const S23: Comb = 9;

/// Sum of all dice.
pub const CHANCE: Comb = 10;

/// Six of a kind.
pub const YAHTZEE: Comb = 11;

/// Number of scoring combination rows.
pub const COMB_COUNT: Comb = 12;

/// Mask with one bit per combination row.
pub const COMB_MASK: u16 = 0x0FFF;

} // verus!
