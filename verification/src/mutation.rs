//! The shake that perturbs whales when the search stagnates.

use vstd::prelude::*;
use rand::rngs::StdRng;
use crate::assignment::{is_point_permutation, lemma_shuffle_keeps_permutation};
use crate::ieee::{spec_negate, negate};
use crate::random::{random_index, shuffle_indices};

verus! {

/// How many whales one shake changes.
pub const MUTATE: usize = 4;

/// The coordinates the whales hold: whale, centre, coordinate.
pub open spec fn views(whales: Seq<Vec<Vec<u32>>>) -> Seq<Seq<Seq<u32>>> {
    whales.map_values(|w: Vec<Vec<u32>>| w@.map_values(|c: Vec<u32>| c@))
}

/// `whale` after the centres listed in `centres` take the negated coordinates
/// of the same centres of `donor`.
pub open spec fn overwritten(whale: Seq<Seq<u32>>, donor: Seq<Seq<u32>>, centres: Seq<usize>) -> Seq<Seq<u32>> {
    Seq::new(
        whale.len(),
        |c: int|
            Seq::new(
                whale[c].len(),
                |j: int|
                    if centres.contains(c as usize) && j < donor[c].len() {
                        spec_negate(donor[c][j])
                    } else {
                        whale[c][j]
                    },
            ),
    )
}

/// The values drawn for one round of a shake: the whale changed, the donor
/// (an index into `elite` when donors come from it, otherwise a whale), how
/// many centres change, and the shuffled order of the centres.
pub type ShakeDraw = (usize, usize, usize, Seq<usize>);

/// The donor whale of a draw.
pub open spec fn donor_of(elite: Seq<usize>, from_elite: bool, draw: ShakeDraw) -> int {
    if from_elite { elite[draw.1 as int] as int } else { draw.1 as int }
}

/// The whales after one round with the drawn values: the first `draw.2`
/// centres of `draw.3` in whale `draw.0` take the donor's negated coordinates.
pub open spec fn shake_round_result(
    whales: Seq<Seq<Seq<u32>>>,
    elite: Seq<usize>,
    from_elite: bool,
    draw: ShakeDraw,
) -> Seq<Seq<Seq<u32>>> {
    whales.update(
        draw.0 as int,
        overwritten(whales[draw.0 as int], whales[donor_of(elite, from_elite, draw)], draw.3.take(draw.2 as int)),
    )
}

/// The draws a round can make among `n` whales of `k` centres.
pub open spec fn valid_draw(n: nat, k: nat, elite: Seq<usize>, from_elite: bool, draw: ShakeDraw) -> bool {
    &&& draw.0 < n
    &&& from_elite ==> draw.1 < elite.len()
    &&& !from_elite ==> draw.1 < n
    &&& draw.2 < k
    &&& is_point_permutation(draw.3, k)
}

/// The whales after the rounds `draws`, in order.
pub open spec fn shake_rounds(
    whales: Seq<Seq<Seq<u32>>>,
    elite: Seq<usize>,
    from_elite: bool,
    draws: Seq<ShakeDraw>,
) -> Seq<Seq<Seq<u32>>>
    decreases draws.len(),
{
    if draws.len() == 0 {
        whales
    } else {
        shake_round_result(shake_rounds(whales, elite, from_elite, draws.drop_last()), elite, from_elite, draws.last())
    }
}

/// Whale `v` can serve as a donor.
pub open spec fn possible_donor(whales: Seq<Vec<Vec<u32>>>, elite: Seq<usize>, from_elite: bool, v: int) -> bool {
    if from_elite { exists|i: int| 0 <= i < elite.len() && #[trigger] elite[i] as int == v } else { 0 <= v < whales.len() }
}

/// Every draw a round can make is in range: there is a whale with a centre,
/// the elite lists whales, every whale has at least the first whale's number
/// `k` of centres, and among the first `k` centres no donor has more
/// coordinates than the whale it may overwrite.
pub open spec fn shakeable(whales: Seq<Vec<Vec<u32>>>, elite: Seq<usize>, from_elite: bool) -> bool {
    &&& whales.len() >= 1
    &&& whales[0]@.len() >= 1
    &&& from_elite ==> elite.len() >= 1
    &&& forall|i: int| 0 <= i < elite.len() ==> #[trigger] elite[i] < whales.len()
    &&& forall|w: int| 0 <= w < whales.len() ==> #[trigger] whales[w]@.len() >= whales[0]@.len()
    &&& forall|w: int, v: int, c: int|
        0 <= w < whales.len() && possible_donor(whales, elite, from_elite, v) && 0 <= c < whales[0]@.len()
            ==> #[trigger] whales[v]@[c]@.len() <= #[trigger] whales[w]@[c]@.len()
}

/// Overwrites the listed centres of whale `selected` with the negated
/// coordinates of the same centres of `donor`.
pub fn mutate_whale(whales: &mut Vec<Vec<Vec<u32>>>, selected: usize, donor: &Vec<Vec<u32>>, centres: &Vec<usize>)
    requires
        selected < old(whales)@.len(),
        forall|i: int|
            0 <= i < centres@.len() ==> #[trigger] centres@[i] < donor@.len() && centres@[i] < old(
                whales,
            )@[selected as int]@.len() && donor@[centres@[i] as int]@.len() <= old(whales)@[selected as int]@[centres@[i] as int]@.len(),
    ensures
        final(whales)@.len() == old(whales)@.len(),
        forall|w: int| 0 <= w < old(whales)@.len() && w != selected ==> #[trigger] final(whales)@[w] == old(whales)@[w],
        final(whales)@[selected as int]@.len() == old(whales)@[selected as int]@.len(),
        forall|c: int|
            0 <= c < old(whales)@[selected as int]@.len() ==> #[trigger] final(whales)@[selected as int]@[c]@.len() == old(
                whales,
            )@[selected as int]@[c]@.len(),
        forall|c: int, j: int|
            0 <= c < old(whales)@[selected as int]@.len() && 0 <= j < old(whales)@[selected as int]@[c]@.len()
                ==> #[trigger] final(whales)@[selected as int]@[c]@[j] == if centres@.contains(c as usize) && j < donor@[c]@.len() {
                spec_negate(donor@[c]@[j])
            } else {
                old(whales)@[selected as int]@[c]@[j]
            },
{
    let mut whale: Vec<Vec<u32>> = whales[selected].clone();
    proof {
        assert forall|c: int| 0 <= c < whale@.len() implies #[trigger] whale@[c]@ == old(whales)@[selected as int]@[c]@ by {
            assert(cloned::<Vec<u32>>(old(whales)@[selected as int]@[c], whale@[c]));
        }
    }
    let ghost unchanged = whale@;
    let mut i: usize = 0;
    while i < centres.len()
        invariant
            forall|x: int|
                0 <= x < centres@.len() ==> #[trigger] centres@[x] < donor@.len() && centres@[x] < unchanged.len()
                    && donor@[centres@[x] as int]@.len() <= unchanged[centres@[x] as int]@.len(),
            i <= centres@.len(),
            whale@.len() == unchanged.len(),
            forall|c: int| 0 <= c < whale@.len() ==> #[trigger] whale@[c]@.len() == unchanged[c]@.len(),
            forall|c: int, j: int|
                0 <= c < whale@.len() && 0 <= j < whale@[c]@.len() ==> #[trigger] whale@[c]@[j] == if centres@.subrange(
                    0,
                    i as int,
                ).contains(c as usize) && j < donor@[c]@.len() {
                    spec_negate(donor@[c]@[j])
                } else {
                    unchanged[c]@[j]
                },
        decreases centres@.len() - i,
    {
        let centre = centres[i];
        let source = &donor[centre];
        let mut target: Vec<u32> = whale[centre].clone();
        assert(target@ =~= whale@[centre as int]@);
        let mut j: usize = 0;
        while j < source.len()
            invariant
                source@ == donor@[centre as int]@,
                source@.len() <= target@.len(),
                target@.len() == whale@[centre as int]@.len(),
                j <= source@.len(),
                forall|x: int| 0 <= x < j ==> #[trigger] target@[x] == spec_negate(source@[x]),
                forall|x: int| j <= x < target@.len() ==> #[trigger] target@[x] == whale@[centre as int]@[x],
            decreases source@.len() - j,
        {
            target.set(j, negate(source[j]));
            j = j + 1;
        }
        let ghost before = whale@;
        whale.set(centre, target);
        proof {
            assert(centres@.subrange(0, i + 1) =~= centres@.subrange(0, i as int).push(centre));
            assert forall|c: int, j: int|
                0 <= c < whale@.len() && 0 <= j < whale@[c]@.len() implies #[trigger] whale@[c]@[j] == if centres@.subrange(
                    0,
                    i + 1,
                ).contains(c as usize) && j < donor@[c]@.len() {
                spec_negate(donor@[c]@[j])
            } else {
                unchanged[c]@[j]
            } by {
                let grown = centres@.subrange(0, i + 1);
                let seen = centres@.subrange(0, i as int);
                if c == centre {
                    assert(grown[i as int] == centre);
                    assert(grown.contains(c as usize));
                } else {
                    assert(whale@[c] == before[c]);
                    if grown.contains(c as usize) {
                        let q = choose|q: int| 0 <= q < grown.len() && grown[q] == c as usize;
                        assert(grown[i as int] == centre);
                        assert(whale.len() <= usize::MAX);
                        assert((c as usize) as int == c);
                        assert(q < i);
                        assert(seen[q] == c as usize);
                    }
                    if seen.contains(c as usize) {
                        let q = choose|q: int| 0 <= q < seen.len() && seen[q] == c as usize;
                        assert(grown[q] == c as usize);
                    }
                }
            }
        }
        i = i + 1;
    }
    assert(centres@.subrange(0, centres@.len() as int) =~= centres@);
    whales.set(selected, whale);
}

/// One round of a shake with drawn values: the donor is `elite[pick]` when
/// `from_elite` holds, otherwise whale `pick`; the first `count` centres of
/// `order` in whale `selected` take the donor's negated coordinates.
pub fn shake_round(
    whales: &mut Vec<Vec<Vec<u32>>>,
    elite: &Vec<usize>,
    from_elite: bool,
    selected: usize,
    pick: usize,
    count: usize,
    order: Vec<usize>,
)
    requires
        shakeable(old(whales)@, elite@, from_elite),
        valid_draw(old(whales)@.len(), old(whales)@[0]@.len(), elite@, from_elite, (selected, pick, count, order@)),
    ensures
        views(final(whales)@) == shake_round_result(
            views(old(whales)@),
            elite@,
            from_elite,
            (selected, pick, count, order@),
        ),
        final(whales)@.len() == old(whales)@.len(),
        forall|w: int| 0 <= w < old(whales)@.len() ==> #[trigger] final(whales)@[w]@.len() == old(whales)@[w]@.len(),
        forall|w: int, c: int|
            0 <= w < old(whales)@.len() && 0 <= c < old(whales)@[w]@.len() ==> #[trigger] final(whales)@[w]@[c]@.len()
                == old(whales)@[w]@[c]@.len(),
        shakeable(final(whales)@, elite@, from_elite),
{
    let ghost start = whales@;
    let ghost k = start[0]@.len();
    let ghost draw: ShakeDraw = (selected, pick, count, order@);
    let donor_id = if from_elite {
        elite[pick]
    } else {
        pick
    };
    assert(donor_id as int == donor_of(elite@, from_elite, draw));
    assert(from_elite ==> elite@[pick as int] as int == donor_id as int);
    assert(possible_donor(start, elite@, from_elite, donor_id as int));
    let selected_len = whales[selected].len();
    let random_whale: Vec<Vec<u32>> = whales[donor_id].clone();
    proof {
        assert forall|c: int| 0 <= c < random_whale@.len() implies #[trigger] random_whale@[c]@ == start[donor_id as int]@[c]@ by {
            assert(cloned::<Vec<u32>>(start[donor_id as int]@[c], random_whale@[c]));
        }
    }
    let mut to_mutate = order;
    to_mutate.truncate(count);
    let ghost centres = to_mutate@;
    assert(centres == draw.3.take(count as int));
    proof {
        assert forall|i: int| 0 <= i < centres.len() implies #[trigger] centres[i] < random_whale@.len() && centres[i]
            < start[selected as int]@.len() && random_whale@[centres[i] as int]@.len() <= start[selected as int]@[centres[i] as int]@.len() by {
            assert(centres[i] == draw.3[i]);
            assert(draw.3[i] < k);
            assert(start[donor_id as int]@.len() >= k);
            assert(start[selected as int]@.len() >= k);
            assert(start[donor_id as int]@[centres[i] as int]@.len() <= start[selected as int]@[centres[i] as int]@.len());
        }
    }
    mutate_whale(whales, selected, &random_whale, &to_mutate);
    proof {
        let after = views(whales@);
        let expected = shake_round_result(views(start), elite@, from_elite, draw);
        assert(views(start)[donor_id as int] =~= random_whale@.map_values(|c: Vec<u32>| c@));
        assert forall|w: int| 0 <= w < after.len() implies #[trigger] after[w] == expected[w] by {
            if w == selected {
                let got = after[w];
                let want = overwritten(views(start)[w], views(start)[donor_id as int], centres);
                assert forall|c: int| 0 <= c < got.len() implies #[trigger] got[c] =~= want[c] by {
                    assert(got[c] == whales@[w]@[c]@);
                    if centres.contains(c as usize) {
                        let i = choose|i: int| 0 <= i < centres.len() && centres[i] == c as usize;
                        assert(centres[i] < random_whale@.len());
                        assert(views(start)[donor_id as int][c] == random_whale@[c]@);
                    }
                    assert forall|j: int| 0 <= j < got[c].len() implies #[trigger] got[c][j] == want[c][j] by {
                        assert(got[c][j] == whales@[w]@[c]@[j]);
                    }
                }
                assert(got =~= want);
            } else {
                assert(whales@[w] == start[w]);
            }
        }
        assert(after =~= expected);
        assert forall|w: int, v: int, c: int|
            0 <= w < whales@.len() && possible_donor(whales@, elite@, from_elite, v) && 0 <= c < whales@[0]@.len()
                implies #[trigger] whales@[v]@[c]@.len() <= #[trigger] whales@[w]@[c]@.len() by {
            assert(possible_donor(start, elite@, from_elite, v));
            if from_elite {
                let i = choose|i: int| 0 <= i < elite@.len() && #[trigger] elite@[i] as int == v;
                assert(elite@[i] < start.len());
            }
            assert(0 <= v < start.len());
            assert(whales@[0]@.len() == start[0]@.len());
            assert(start[v]@.len() >= start[0]@.len());
            assert(whales@[v]@[c]@.len() == start[v]@[c]@.len());
            assert(whales@[w]@[c]@.len() == start[w]@[c]@.len());
        }
    }
}

/// The centres `0..k` in increasing order.
fn centres_ascending(k: usize) -> (order: Vec<usize>)
    ensures
        is_point_permutation(order@, k as nat),
{
    let mut order: Vec<usize> = Vec::new();
    let mut c: usize = 0;
    while c < k
        invariant
            c <= k,
            order@.len() == c,
            forall|x: int| 0 <= x < c ==> #[trigger] order@[x] == x,
        decreases k - c,
    {
        order.push(c);
        c = c + 1;
    }
    assert forall|x: usize| x < k implies order@.contains(x) by {
        assert(order@[x as int] == x);
    }
    order
}

/// Perturbs `MUTATE` whales. Each round draws the whale to change, a donor
/// (through `elite` when `from_elite` holds, otherwise among all whales), a
/// number of centres below `k`, and a shuffled order of the `k` centres; then
/// it runs `shake_round` with those values.
///
/// Whatever the generator gives, the result is that of `MUTATE` such rounds,
/// each with in-range draws, applied in turn to the start.
pub fn shake(whales: &mut Vec<Vec<Vec<u32>>>, elite: &Vec<usize>, from_elite: bool, rng: &mut StdRng)
    requires
        shakeable(old(whales)@, elite@, from_elite),
    ensures
        exists|draws: Seq<ShakeDraw>|
            #![trigger shake_rounds(views(old(whales)@), elite@, from_elite, draws)]
            draws.len() == MUTATE && (forall|r: int|
                0 <= r < draws.len() ==> valid_draw(
                    old(whales)@.len(),
                    old(whales)@[0]@.len(),
                    elite@,
                    from_elite,
                    #[trigger] draws[r],
                )) && views(final(whales)@) == shake_rounds(views(old(whales)@), elite@, from_elite, draws),
        final(whales)@.len() == old(whales)@.len(),
        final(whales)@[0]@.len() == old(whales)@[0]@.len(),
        shakeable(final(whales)@, elite@, from_elite),
{
    let ghost start = whales@;
    let ghost n = start.len();
    let ghost k = start[0]@.len();
    let ghost mut draws: Seq<ShakeDraw> = Seq::empty();
    let mut round: usize = 0;
    while round < MUTATE
        invariant
            whales@.len() == n,
            whales@[0]@.len() == k,
            n == start.len(),
            k == start[0]@.len(),
            shakeable(whales@, elite@, from_elite),
            draws.len() == round,
            forall|r: int| 0 <= r < draws.len() ==> valid_draw(n, k, elite@, from_elite, #[trigger] draws[r]),
            views(whales@) == shake_rounds(views(start), elite@, from_elite, draws),
            round <= MUTATE,
        decreases MUTATE - round,
    {
        let whale_selected = random_index(rng, 0, whales.len());
        let pick = if from_elite {
            random_index(rng, 0, elite.len())
        } else {
            random_index(rng, 0, whales.len())
        };
        let centre_count = whales[0].len();
        let centers_to_mutate = random_index(rng, 0, centre_count);
        let mut to_mutate = centres_ascending(centre_count);
        let ghost listed = to_mutate@;
        shuffle_indices(&mut to_mutate, rng);
        proof {
            lemma_shuffle_keeps_permutation(listed, to_mutate@, centre_count as nat);
        }
        let ghost draw: ShakeDraw = (whale_selected, pick, centers_to_mutate, to_mutate@);
        shake_round(whales, elite, from_elite, whale_selected, pick, centers_to_mutate, to_mutate);
        proof {
            let grown = draws.push(draw);
            assert(grown.drop_last() =~= draws);
            assert(grown.last() == draw);
            draws = grown;
        }
        round = round + 1;
    }
}

} // verus!
