use vstd::prelude::*;

use crate::dice::{DiceToRoll, Die};
use crate::random::sample_range;

verus! {

/// The outcome of rolling a number of dice of one kind: each roll in the
/// order rolled, and their sum.
pub struct RolledDice {
    pub die: Die,
    pub rolls: Vec<u32>,
    pub total: u32,
}

/// The outcome of rolling several groups of dice: one `RolledDice` per group,
/// in the order given, and the sum of all their rolls.
pub struct RolledDiceBatch {
    pub types: Vec<RolledDice>,
    pub total: u32,
}

pub open spec fn sum_of(s: Seq<u32>) -> int
    decreases s.len(),
{
    if s.len() == 0 {
        0
    } else {
        sum_of(s.drop_last()) + s.last()
    }
}

/// The sum of the totals of the groups.
pub open spec fn sum_of_totals(groups: Seq<RolledDice>) -> int
    decreases groups.len(),
{
    if groups.len() == 0 {
        0
    } else {
        sum_of_totals(groups.drop_last()) + groups.last().total
    }
}

/// The largest total that rolling `dice` can give: every die on its highest face.
pub open spec fn highest_total(dice: Seq<DiceToRoll>) -> int
    decreases dice.len(),
{
    if dice.len() == 0 {
        0
    } else {
        highest_total(dice.drop_last()) + dice.last().number * dice.last().die.faces()
    }
}

/// The number of dice in all the groups.
pub open spec fn dice_count(dice: Seq<DiceToRoll>) -> int
    decreases dice.len(),
{
    if dice.len() == 0 {
        0
    } else {
        dice_count(dice.drop_last()) + dice.last().number
    }
}

/// All the rolls of the groups, group after group.
pub open spec fn all_rolls(groups: Seq<RolledDice>) -> Seq<u32>
    decreases groups.len(),
{
    if groups.len() == 0 {
        Seq::empty()
    } else {
        all_rolls(groups.drop_last()) + groups.last().rolls@
    }
}

/// `draws` are what rolling `dice` in order can give: one value per die,
/// group after group, each between 1 and the faces of its group's die.
pub open spec fn fits(dice: Seq<DiceToRoll>, draws: Seq<u32>) -> bool
    decreases dice.len(),
{
    if dice.len() == 0 {
        draws.len() == 0
    } else {
        let last = dice.last();
        let cut = draws.len() - last.number;
        &&& cut >= 0
        &&& forall|k: int| cut <= k < draws.len() ==> 1 <= #[trigger] draws[k] <= last.die.faces()
        &&& fits(dice.drop_last(), draws.take(cut))
    }
}

/// `g` is an outcome of rolling `dice`: its die, one roll per die, each roll
/// between 1 and the faces of the die, and a total that is their sum.
pub open spec fn rolled_from(dice: DiceToRoll, g: RolledDice) -> bool {
    &&& g.die == dice.die
    &&& g.rolls@.len() == dice.number
    &&& forall|k: int| 0 <= k < g.rolls@.len() ==> 1 <= #[trigger] g.rolls@[k] <= dice.die.faces()
    &&& g.total == sum_of(g.rolls@)
}

/// `b` is an outcome of rolling each group of `dice` in order, with a total
/// that is the sum of the groups' totals.
pub open spec fn batch_from(dice: Seq<DiceToRoll>, b: RolledDiceBatch) -> bool {
    &&& b.types@.len() == dice.len()
    &&& forall|i: int| 0 <= i < dice.len() ==> rolled_from(dice[i], #[trigger] b.types@[i])
    &&& b.total == sum_of_totals(b.types@)
}

proof fn lemma_count_nonneg(dice: Seq<DiceToRoll>)
    ensures
        dice_count(dice) >= 0,
        highest_total(dice) >= 0,
    decreases dice.len(),
{
    if dice.len() > 0 {
        lemma_count_nonneg(dice.drop_last());
        let last = dice.last();
        assert(last.number * last.die.faces() >= 0) by (nonlinear_arith);
    }
}

proof fn lemma_prefix_count_le(dice: Seq<DiceToRoll>, i: int)
    requires
        0 <= i <= dice.len(),
    ensures
        dice_count(dice.take(i)) <= dice_count(dice),
        highest_total(dice.take(i)) <= highest_total(dice),
    decreases dice.len(),
{
    if i == dice.len() {
        assert(dice.take(i) =~= dice);
    } else {
        let rest = dice.drop_last();
        lemma_prefix_count_le(rest, i);
        assert(rest.take(i) =~= dice.take(i));
        let last = dice.last();
        assert(last.number * last.die.faces() >= 0) by (nonlinear_arith);
    }
}

/// Draws that fit a list of groups are one per die.
proof fn lemma_fits_len(dice: Seq<DiceToRoll>, draws: Seq<u32>)
    requires
        fits(dice, draws),
    ensures
        draws.len() == dice_count(dice),
    decreases dice.len(),
{
    if dice.len() > 0 {
        let cut = draws.len() - dice.last().number;
        lemma_fits_len(dice.drop_last(), draws.take(cut));
    }
}

/// Draws that fit a list of groups fit each prefix of it with their own prefix.
proof fn lemma_fits_prefix(dice: Seq<DiceToRoll>, draws: Seq<u32>, i: int)
    requires
        fits(dice, draws),
        0 <= i <= dice.len(),
    ensures
        fits(dice.take(i), draws.take(dice_count(dice.take(i)))),
    decreases dice.len(),
{
    lemma_fits_len(dice, draws);
    if i == dice.len() {
        assert(dice.take(i) =~= dice);
        assert(draws.take(draws.len() as int) =~= draws);
    } else {
        let rest = dice.drop_last();
        let cut = draws.len() - dice.last().number;
        lemma_fits_prefix(rest, draws.take(cut), i);
        lemma_fits_len(rest, draws.take(cut));
        lemma_prefix_count_le(rest, i);
        assert(rest.take(i) =~= dice.take(i));
        let c = dice_count(dice.take(i));
        lemma_count_nonneg(dice.take(i));
        assert(draws.take(cut).take(c) =~= draws.take(c));
    }
}

/// Rolls each group of `dice` in order, taking the value of each die from
/// `draws` in turn. Gives `None` where the draws do not fit the dice: where
/// their number differs from the number of dice, or a value lies outside its
/// die's faces.
pub fn roll_dice_from(dice: &Vec<DiceToRoll>, draws: &Vec<u32>) -> (r: Option<RolledDiceBatch>)
    requires
        highest_total(dice@) <= u32::MAX,
    ensures
        r is Some <==> fits(dice@, draws@),
        r matches Some(b) ==> batch_from(dice@, b) && all_rolls(b.types@) == draws@,
{
    let mut types: Vec<RolledDice> = Vec::new();
    let mut total: u32 = 0;
    let mut pos: usize = 0;
    let mut i: usize = 0;
    while i < dice.len()
        invariant
            i <= dice.len(),
            pos <= draws.len(),
            highest_total(dice@) <= u32::MAX,
            types@.len() == i,
            forall|j: int| 0 <= j < i ==> rolled_from(dice@[j], #[trigger] types@[j]),
            total == sum_of_totals(types@),
            total <= highest_total(dice@.take(i as int)),
            pos == dice_count(dice@.take(i as int)),
            all_rolls(types@) == draws@.take(pos as int),
            fits(dice@.take(i as int), draws@.take(pos as int)),
        decreases dice.len() - i,
    {
        let group = dice[i];
        let faces = group.die.sides();
        let number = group.number;
        let ghost upto = dice@.take(i + 1);
        assert(upto.drop_last() =~= dice@.take(i as int));
        assert(upto.last() == group);
        proof {
            lemma_prefix_count_le(dice@, i + 1);
        }
        if number as usize > draws.len() - pos {
            proof {
                if fits(dice@, draws@) {
                    lemma_fits_len(dice@, draws@);
                }
            }
            return None;
        }
        proof {
            if fits(dice@, draws@) {
                lemma_fits_prefix(dice@, draws@, i + 1);
            }
        }
        let mut rolls: Vec<u32> = Vec::new();
        let mut sub: u32 = 0;
        let mut k: usize = 0;
        while k < number as usize
            invariant
                i < dice.len(),
                number == group.number,
                pos + number <= draws.len(),
                k <= number,
                faces == group.die.faces(),
                upto == dice@.take(i + 1),
                upto.last() == group,
                total <= highest_total(dice@.take(i as int)),
                highest_total(upto) <= u32::MAX,
                highest_total(upto) == highest_total(dice@.take(i as int)) + number * faces,
                pos == dice_count(dice@.take(i as int)),
                dice_count(upto) == pos + number,
                fits(dice@, draws@) ==> fits(upto, draws@.take(pos + number)),
                rolls@ == draws@.subrange(pos as int, pos + k),
                forall|m: int| 0 <= m < k ==> 1 <= #[trigger] rolls@[m] <= faces,
                sub == sum_of(rolls@),
                sub <= k * faces,
            decreases number - k,
        {
            let v = draws[pos + k];
            if v < 1 || v > faces {
                proof {
                    if fits(dice@, draws@) {
                        let d = draws@.take(pos + number);
                        assert(d[pos + k] == v);
                    }
                }
                return None;
            }
            assert((k + 1) * faces == k * faces + faces) by (nonlinear_arith);
            assert(k * faces <= number * faces) by (nonlinear_arith)
                requires k < number;
            rolls.push(v);
            assert(rolls@.drop_last() =~= draws@.subrange(pos as int, pos + k));
            sub = sub + v;
            k = k + 1;
            assert(rolls@ =~= draws@.subrange(pos as int, pos + k));
        }
        let ghost before = types@;
        let ghost taken = draws@.take(pos as int);
        total = total + sub;
        types.push(RolledDice { die: group.die, rolls, total: sub });
        assert(types@.drop_last() =~= before);
        pos = pos + number as usize;
        i = i + 1;
        assert(draws@.take(pos as int) =~= taken + draws@.subrange(pos - number, pos as int));
        assert(draws@.take(pos as int).take(pos - number) =~= taken);
        assert(upto =~= dice@.take(i as int));
    }
    proof {
        if fits(dice@, draws@) {
            lemma_fits_len(dice@, draws@);
        }
        assert(dice@.take(i as int) =~= dice@);
    }
    if pos != draws.len() {
        return None;
    }
    assert(draws@.take(pos as int) =~= draws@);
    Some(RolledDiceBatch { types, total })
}

/// Whether the largest total that rolling `dice` can give fits in a `u32`,
/// as rolling them requires.
pub fn total_fits(dice: &Vec<DiceToRoll>) -> (r: bool)
    ensures
        r == (highest_total(dice@) <= u32::MAX),
{
    let mut sum: u64 = 0;
    let mut i: usize = 0;
    while i < dice.len()
        invariant
            i <= dice.len(),
            sum == highest_total(dice@.take(i as int)),
            sum <= u32::MAX,
        decreases dice.len() - i,
    {
        let group = dice[i];
        let faces = group.die.sides();
        assert(dice@.take(i + 1).drop_last() =~= dice@.take(i as int));
        proof {
            lemma_prefix_count_le(dice@, i + 1);
            lemma_count_nonneg(dice@.take(i as int));
            assert(group.number * faces <= u32::MAX * 100) by (nonlinear_arith)
                requires
                    group.number <= u32::MAX,
                    faces <= 100,
            ;
        }
        sum = sum + group.number as u64 * faces as u64;
        i = i + 1;
        if sum > u32::MAX as u64 {
            return false;
        }
    }
    assert(dice@.take(i as int) =~= dice@);
    true
}

/// Rolls each group of `dice` in order, drawing each die uniformly from its
/// faces: one draw per die, group after group.
pub fn roll_dice(rolls: Vec<DiceToRoll>) -> (r: RolledDiceBatch)
    requires
        highest_total(rolls@) <= u32::MAX,
    ensures
        batch_from(rolls@, r),
{
    let mut draws: Vec<u32> = Vec::new();
    let mut i: usize = 0;
    while i < rolls.len()
        invariant
            i <= rolls.len(),
            fits(rolls@.take(i as int), draws@),
        decreases rolls.len() - i,
    {
        let group = rolls[i];
        let faces = group.die.sides();
        let ghost before = draws@;
        let mut k: u32 = 0;
        while k < group.number
            invariant
                k <= group.number,
                faces == group.die.faces(),
                4 <= faces <= 100,
                draws@.len() == before.len() + k,
                draws@.take(before.len() as int) == before,
                forall|m: int| before.len() <= m < draws@.len() ==> 1 <= #[trigger] draws@[m] <= faces,
            decreases group.number - k,
        {
            let v = sample_range(1, faces + 1);
            draws.push(v);
            k = k + 1;
            assert(draws@.take(before.len() as int) =~= before);
        }
        assert(rolls@.take(i + 1).drop_last() =~= rolls@.take(i as int));
        i = i + 1;
    }
    assert(rolls@.take(i as int) =~= rolls@);
    roll_dice_from(&rolls, &draws).unwrap()
}

/// Rolling no groups gives no group outcomes and a total of 0.
pub proof fn lemma_roll_nothing(b: RolledDiceBatch)
    requires
        batch_from(Seq::empty(), b),
    ensures
        b.types@.len() == 0,
        b.total == 0,
{
    assert(b.types@ =~= Seq::<RolledDice>::empty());
}

} // verus!
