use vstd::prelude::*;
use vstd::seq_lib::group_to_multiset_ensures;
use vstd::multiset::group_multiset_axioms;

use crate::random::sample_range;

verus! {

/// The lowest of four values.
pub open spec fn lowest_of_four(a: int, b: int, c: int, d: int) -> int {
    let ab = if b < a { b } else { a };
    let abc = if c < ab { c } else { ab };
    if d < abc { d } else { abc }
}

/// The score of ability `i`: the sum of the four draws from index `4 * i`,
/// less the lowest of them.
pub open spec fn ability_score(draws: Seq<u8>, i: int) -> int {
    let a = draws[4 * i] as int;
    let b = draws[4 * i + 1] as int;
    let c = draws[4 * i + 2] as int;
    let d = draws[4 * i + 3] as int;
    a + b + c + d - lowest_of_four(a, b, c, d)
}

/// The six ability scores of a block, in the order rolled.
pub open spec fn ability_scores(draws: Seq<u8>) -> Seq<u8> {
    Seq::new(6, |i: int| ability_score(draws, i) as u8)
}

/// Twenty-four draws of a six-sided die: four for each of six abilities.
pub open spec fn stat_draws(draws: Seq<u8>) -> bool {
    &&& draws.len() == 24
    &&& forall|k: int| 0 <= k < draws.len() ==> 1 <= #[trigger] draws[k] <= 6
}

pub open spec fn is_sorted(s: Seq<u8>) -> bool {
    forall|i: int, j: int| 0 <= i < j < s.len() ==> s[i] <= s[j]
}

/// Inserting a value into a sequence adds it to the sequence's multiset.
proof fn lemma_insert_multiset(s: Seq<u8>, p: int, x: u8)
    requires
        0 <= p <= s.len(),
    ensures
        s.insert(p, x).to_multiset() =~= s.to_multiset().insert(x),
{
    broadcast use group_to_multiset_ensures, group_multiset_axioms;

    let t = s.insert(p, x);
    assert(t.remove(p) =~= s);
    assert(t[p] == x);
    assert(t.contains(x));
}

/// Builds an ability-score block from twenty-four die draws: each group of
/// four gives one score, their sum less the lowest, and the six scores are
/// returned in ascending order. Gives `None` where there are not exactly
/// twenty-four draws, or one lies outside 1 to 6.
pub fn stats_from_draws(draws: &Vec<u8>) -> (r: Option<[u8; 6]>)
    ensures
        r is Some <==> stat_draws(draws@),
        r matches Some(st) ==> {
            &&& is_sorted(st@)
            &&& st@.to_multiset() == ability_scores(draws@).to_multiset()
            &&& forall|j: int| 0 <= j < 6 ==> 3 <= #[trigger] st@[j] <= 18
        },
{
    broadcast use group_to_multiset_ensures;

    if draws.len() != 24 {
        return None;
    }
    let mut k: usize = 0;
    while k < 24
        invariant
            draws@.len() == 24,
            k <= 24,
            forall|m: int| 0 <= m < k ==> 1 <= #[trigger] draws@[m] <= 6,
        decreases 24 - k,
    {
        if draws[k] < 1 || draws[k] > 6 {
            return None;
        }
        k = k + 1;
    }
    let ghost all = ability_scores(draws@);
    let mut scores: Vec<u8> = Vec::new();
    let mut i: usize = 0;
    while i < 6
        invariant
            stat_draws(draws@),
            all == ability_scores(draws@),
            i <= 6,
            scores@.len() == i,
            is_sorted(scores@),
            scores@.to_multiset() == all.take(i as int).to_multiset(),
            forall|j: int| 0 <= j < i ==> 3 <= #[trigger] scores@[j] <= 18,
        decreases 6 - i,
    {
        let a = draws[4 * i];
        let b = draws[4 * i + 1];
        let c = draws[4 * i + 2];
        let d = draws[4 * i + 3];
        let mut low = a;
        if b < low {
            low = b;
        }
        if c < low {
            low = c;
        }
        if d < low {
            low = d;
        }
        let score: u8 = a + b + c + d - low;
        assert(score == all[i as int]);
        let mut p: usize = 0;
        while p < scores.len() && scores[p] <= score
            invariant
                p <= scores@.len(),
                forall|m: int| 0 <= m < p ==> #[trigger] scores@[m] <= score,
            decreases scores.len() - p,
        {
            p = p + 1;
        }
        let ghost before = scores@;
        scores.insert(p, score);
        proof {
            lemma_insert_multiset(before, p as int, score);
            assert(all.take(i + 1) =~= all.take(i as int).push(score));
            all.take(i as int).to_multiset_ensures();
            assert(scores@ == before.insert(p as int, score));
        }
        i = i + 1;
    }
    assert(all.take(6) =~= all);
    let mut st: [u8; 6] = [0u8; 6];
    let mut j: usize = 0;
    while j < 6
        invariant
            j <= 6,
            scores@.len() == 6,
            forall|m: int| 0 <= m < j ==> st@[m] == scores@[m],
        decreases 6 - j,
    {
        st[j] = scores[j];
        j = j + 1;
    }
    assert(st@ =~= scores@);
    Some(st)
}

/// Rolls an ability-score block: six times, four six-sided dice with the
/// lowest dropped; the six scores in ascending order.
pub fn gen_stats() -> (r: [u8; 6])
    ensures
        is_sorted(r@),
        forall|j: int| 0 <= j < 6 ==> 3 <= #[trigger] r@[j] <= 18,
{
    let mut draws: Vec<u8> = Vec::new();
    let mut k: usize = 0;
    while k < 24
        invariant
            k <= 24,
            draws@.len() == k,
            forall|m: int| 0 <= m < k ==> 1 <= #[trigger] draws@[m] <= 6,
        decreases 24 - k,
    {
        let v = sample_range(1, 7);
        draws.push(v as u8);
        k = k + 1;
    }
    stats_from_draws(&draws).unwrap()
}

} // verus!
