use dndtools::{roll_dice, roll_dice_from, total_fits, DiceToRoll, Die};

#[test]
fn roll_two_d_six_from_draws() {
    let dice = vec![DiceToRoll::from_string("2d6".to_string()).unwrap()];
    let b = roll_dice_from(&dice, &vec![3, 5]).unwrap();
    assert_eq!(b.types.len(), 1);
    assert_eq!(b.types[0].die, Die::D6);
    assert_eq!(b.types[0].rolls, vec![3, 5]);
    assert_eq!(b.types[0].total, 8);
    assert_eq!(b.total, 8);
}

#[test]
fn roll_groups_in_order_from_draws() {
    let dice = vec![DiceToRoll::new(2, Die::D6), DiceToRoll::new(1, Die::D8)];
    let b = roll_dice_from(&dice, &vec![1, 6, 8]).unwrap();
    assert_eq!(b.types.len(), 2);
    assert_eq!(b.types[0].die, Die::D6);
    assert_eq!(b.types[0].rolls, vec![1, 6]);
    assert_eq!(b.types[0].total, 7);
    assert_eq!(b.types[1].die, Die::D8);
    assert_eq!(b.types[1].rolls, vec![8]);
    assert_eq!(b.types[1].total, 8);
    assert_eq!(b.total, 15);
}

#[test]
fn roll_nothing_from_no_draws() {
    let b = roll_dice_from(&Vec::new(), &Vec::new()).unwrap();
    assert!(b.types.is_empty());
    assert_eq!(b.total, 0);
}

#[test]
fn roll_zero_dice_keeps_a_slot() {
    let dice = vec![DiceToRoll::new(0, Die::D6), DiceToRoll::new(1, Die::D4)];
    let b = roll_dice_from(&dice, &vec![4]).unwrap();
    assert_eq!(b.types.len(), 2);
    assert!(b.types[0].rolls.is_empty());
    assert_eq!(b.types[0].total, 0);
    assert_eq!(b.types[1].rolls, vec![4]);
    assert_eq!(b.total, 4);
}

#[test]
fn roll_from_draws_that_do_not_fit() {
    let dice = vec![DiceToRoll::new(2, Die::D6), DiceToRoll::new(1, Die::D8)];
    assert!(roll_dice_from(&dice, &vec![1, 6]).is_none());
    assert!(roll_dice_from(&dice, &vec![1, 6, 8, 1]).is_none());
    assert!(roll_dice_from(&dice, &vec![1, 7, 8]).is_none());
    assert!(roll_dice_from(&dice, &vec![0, 6, 8]).is_none());
    assert!(roll_dice_from(&dice, &vec![1, 6, 9]).is_none());
    assert!(roll_dice_from(&Vec::new(), &vec![1]).is_none());
}

#[test]
fn roll_groups_in_order() {
    let dice = vec![DiceToRoll::new(2, Die::D6), DiceToRoll::new(1, Die::D8)];
    let b = roll_dice(dice);
    assert_eq!(b.types.len(), 2);
    assert_eq!(b.types[0].die, Die::D6);
    assert_eq!(b.types[0].rolls.len(), 2);
    assert_eq!(b.types[1].die, Die::D8);
    assert_eq!(b.types[1].rolls.len(), 1);
    for g in b.types.iter() {
        assert_eq!(g.total, g.rolls.iter().sum::<u32>());
    }
    assert_eq!(b.total, b.types[0].total + b.types[1].total);
}

#[test]
fn roll_draws_vary() {
    let b = roll_dice(vec![DiceToRoll::new(1000, Die::D100)]);
    let rolls = &b.types[0].rolls;
    assert!(rolls.iter().all(|r| *r >= 1 && *r <= 100));
    assert!(rolls.iter().any(|r| *r != 1));
    assert!(rolls.iter().any(|r| *r != 100));
}

#[test]
fn total_fits_bound() {
    assert!(total_fits(&Vec::new()));
    assert!(total_fits(&vec![DiceToRoll::new(42949672, Die::D100)]));
    assert!(!total_fits(&vec![DiceToRoll::new(42949673, Die::D100)]));
    assert!(!total_fits(&vec![DiceToRoll::new(u32::MAX, Die::D100)]));
    assert!(!total_fits(&vec![
        DiceToRoll::new(30000000, Die::D100),
        DiceToRoll::new(30000000, Die::D100)
    ]));
}
