use vstd::prelude::*;

use crate::params::{valid_params, MontyError};
use crate::random::DoorRng;

verus! {

broadcast use vstd::seq_lib::group_to_multiset_ensures;

/// Doors that the host may open: every door of `0..n_door` but the prize and
/// the player's pick.
pub open spec fn openable(n_door: usize, door_car: usize, door_chosen: usize, d: usize) -> bool {
    d < n_door && d != door_car && d != door_chosen
}

/// How many doors the host must leave alone: the prize and the pick, one door
/// if they coincide.
pub open spec fn untouchable_count(door_car: usize, door_chosen: usize) -> int {
    if door_car == door_chosen { 1 } else { 2 }
}

/// Keeps a door that is neither `a` nor `b`.
pub open spec fn other_than(a: usize, b: usize) -> spec_fn(usize) -> bool {
    |d: usize| d != a && d != b
}

/// The doors a player who switches may take: the doors the host left closed
/// and the prize, without the door first picked. The prize is appended last,
/// once, unless it is the pick.
pub open spec fn candidate_pool(left_closed: Seq<usize>, door_car: usize, door_chosen: usize) -> Seq<usize> {
    left_closed.filter(other_than(door_car, door_chosen)) + if door_car != door_chosen {
        seq![door_car]
    } else {
        Seq::<usize>::empty()
    }
}

/// The doors of `0..n_door` that the host may open, in increasing order.
pub fn eliminable_doors(n_door: usize, door_car: usize, door_chosen: usize) -> (r: Vec<usize>)
    ensures
        forall|i: int, j: int| 0 <= i < j < r@.len() ==> r@[i] < r@[j],
        forall|d: usize| r@.contains(d) <==> openable(n_door, door_car, door_chosen, d),
        door_car < n_door && door_chosen < n_door ==> r@.len() == n_door - untouchable_count(
            door_car,
            door_chosen,
        ),
{
    let mut r: Vec<usize> = Vec::new();
    let mut i: usize = 0;
    while i < n_door
        invariant
            i <= n_door,
            forall|a: int, b: int| 0 <= a < b < r@.len() ==> r@[a] < r@[b],
            forall|k: int| 0 <= k < r@.len() ==> r@[k] < i,
            forall|d: usize| r@.contains(d) <==> (d < i && openable(n_door, door_car, door_chosen, d)),
            r@.len() == i - (if door_car < i { 1int } else { 0int }) - (if door_chosen < i
                && door_chosen != door_car { 1int } else { 0int }),
        decreases n_door - i,
    {
        let ghost before = r@;
        if i != door_car && i != door_chosen {
            r.push(i);
        }
        assert(r@.len() > before.len() ==> i != door_car && i != door_chosen && r@ =~= before.push(i));
        assert forall|d: usize| r@.contains(d) <==> (d < i + 1 && openable(n_door, door_car, door_chosen, d)) by {
            if r@.contains(d) {
                let m = choose|m: int| 0 <= m < r@.len() && r@[m] == d;
                if m < before.len() {
                    assert(before[m] == d);
                    assert(before.contains(d));
                } else {
                    assert(r@ =~= before.push(i));
                    assert(d == i);
                }
            }
            if d < i && openable(n_door, door_car, door_chosen, d) {
                assert(before.contains(d));
                let m = choose|m: int| 0 <= m < before.len() && before[m] == d;
                assert(r@[m] == d);
            }
            if d == i && openable(n_door, door_car, door_chosen, d) {
                assert(r@[r@.len() - 1] == d);
            }
        }
        i = i + 1;
    }
    r
}

/// The switch candidates: `left_closed` without the prize and the pick, then
/// the prize unless it was picked.
pub fn switch_candidates(left_closed: &Vec<usize>, door_car: usize, door_chosen: usize) -> (r: Vec<usize>)
    ensures
        r@ == candidate_pool(left_closed@, door_car, door_chosen),
        forall|d: usize| r@.contains(d) <==> ((left_closed@.contains(d) || d == door_car) && d != door_chosen),
{
    let ghost keep = other_than(door_car, door_chosen);
    let mut r: Vec<usize> = Vec::new();
    let mut i: usize = 0;
    while i < left_closed.len()
        invariant
            i <= left_closed@.len(),
            r@ == left_closed@.subrange(0, i as int).filter(keep),
            keep == other_than(door_car, door_chosen),
        decreases left_closed@.len() - i,
    {
        let d = left_closed[i];
        proof {
            reveal(Seq::filter);
            assert(left_closed@.subrange(0, i + 1).drop_last() =~= left_closed@.subrange(0, i as int));
        }
        if d != door_car && d != door_chosen {
            r.push(d);
        }
        i = i + 1;
    }
    assert(left_closed@.subrange(0, left_closed@.len() as int) =~= left_closed@);
    if door_car != door_chosen {
        r.push(door_car);
    }
    proof {
        let f = left_closed@.filter(keep);
        let tail = if door_car != door_chosen { seq![door_car] } else { Seq::<usize>::empty() };
        assert(r@ =~= f + tail);
        assert forall|d: usize| r@.contains(d) <==> ((left_closed@.contains(d) || d == door_car) && d != door_chosen) by {
            if r@.contains(d) {
                let m = choose|m: int| 0 <= m < r@.len() && r@[m] == d;
                if m < f.len() {
                    assert(f[m] == d);
                    left_closed@.lemma_filter_pred(keep, m);
                    assert(f.contains(d));
                    left_closed@.lemma_filter_contains_rev(keep, d);
                } else {
                    assert(tail[m - f.len()] == d);
                }
            }
            if (left_closed@.contains(d) || d == door_car) && d != door_chosen {
                if d == door_car {
                    assert(r@[r@.len() - 1] == d);
                } else {
                    let k = choose|k: int| 0 <= k < left_closed@.len() && left_closed@[k] == d;
                    left_closed@.lemma_filter_contains(keep, k);
                    assert(f.contains(d));
                    let m = choose|m: int| 0 <= m < f.len() && f[m] == d;
                    assert(r@[m] == d);
                }
            }
        }
    }
    r
}

/// What one trial scores: the stayer wins when the first pick is the prize,
/// the switcher when the door switched to is.
pub fn trial_outcome(door_car: usize, door_chosen: usize, door_changed: usize) -> (r: (bool, bool))
    ensures
        r == (door_chosen == door_car, door_changed == door_car),
{
    (door_chosen == door_car, door_changed == door_car)
}

/// One way a trial can go: the prize and the first pick are doors of the
/// game, the host leaves `left_closed` closed besides them (openable doors
/// only, as many as make `n_leftclose` in all), the switcher takes a door of
/// the candidate pool, and `o` scores it.
pub open spec fn trial_run(
    n_door: usize,
    n_leftclose: usize,
    door_car: usize,
    door_chosen: usize,
    left_closed: Seq<usize>,
    door_changed: usize,
    o: (bool, bool),
) -> bool {
    &&& door_car < n_door
    &&& door_chosen < n_door
    &&& left_closed.len() == n_leftclose - untouchable_count(door_car, door_chosen)
    &&& forall|k: int|
        0 <= k < left_closed.len() ==> openable(n_door, door_car, door_chosen, #[trigger] left_closed[k])
    &&& candidate_pool(left_closed, door_car, door_chosen).contains(door_changed)
    &&& o == (door_chosen == door_car, door_changed == door_car)
}

/// The run of the game that the doors `d` drew, in the order they are drawn
/// (prize, first pick, the doors the host leaves closed, the switcher's door),
/// scores `o`.
pub open spec fn trial_from_draws(n_door: usize, n_leftclose: usize, d: Seq<usize>, o: (bool, bool)) -> bool {
    &&& d.len() >= 3
    &&& trial_run(n_door, n_leftclose, d[0], d[1], d.subrange(2, d.len() - 1), d.last(), o)
}

/// The switch candidates never hold the first pick, so staying and switching
/// never both win.
pub proof fn lemma_never_both_win(
    n_door: usize,
    n_leftclose: usize,
    door_car: usize,
    door_chosen: usize,
    left_closed: Seq<usize>,
    door_changed: usize,
    o: (bool, bool),
)
    requires
        trial_run(n_door, n_leftclose, door_car, door_chosen, left_closed, door_changed, o),
    ensures
        !(o.0 && o.1),
{
    let keep = other_than(door_car, door_chosen);
    let f = left_closed.filter(keep);
    let pool = candidate_pool(left_closed, door_car, door_chosen);
    if o.0 && o.1 {
        let m = choose|m: int| 0 <= m < pool.len() && pool[m] == door_changed;
        if m < f.len() {
            left_closed.lemma_filter_pred(keep, m);
        }
    }
}

/// With two doors left closed, exactly one of the two strategies wins: the
/// host leaves one losing door when the first pick is the prize, and none
/// otherwise.
pub proof fn lemma_two_left_exactly_one_wins(
    n_door: usize,
    n_leftclose: usize,
    door_car: usize,
    door_chosen: usize,
    left_closed: Seq<usize>,
    door_changed: usize,
    o: (bool, bool),
)
    requires
        trial_run(n_door, n_leftclose, door_car, door_chosen, left_closed, door_changed, o),
        n_leftclose == 2,
    ensures
        o.0 != o.1,
{
    let keep = other_than(door_car, door_chosen);
    let f = left_closed.filter(keep);
    let pool = candidate_pool(left_closed, door_car, door_chosen);
    lemma_never_both_win(n_door, n_leftclose, door_car, door_chosen, left_closed, door_changed, o);
    let m = choose|m: int| 0 <= m < pool.len() && pool[m] == door_changed;
    if door_car != door_chosen {
        assert(left_closed.len() == 0);
        assert(left_closed.filter(keep).len() <= 0);
        assert(pool[m] == door_car);
    } else {
        assert(m < f.len());
        left_closed.lemma_filter_pred(keep, m);
    }
}

/// Runs one trial of the game and scores it as `(stayed_hit, switched_hit)`.
///
/// Draws the prize door and the first pick from `0..n_door`, lets the host
/// keep `n_leftclose` doors closed (the prize and the pick among them), and
/// draws the switcher's door from the others still closed.
pub fn simulate_monty_hall_once(
    n_door: usize,
    n_leftclose: usize,
    rng: &mut DoorRng,
) -> (r: Result<(bool, bool), MontyError>)
    ensures
        r is Ok <==> valid_params(n_door, n_leftclose),
        r is Err ==> r == Err::<(bool, bool), MontyError>(MontyError::InvalidParameter),
        r is Err ==> *final(rng) == *old(rng),
        r is Ok ==> old(rng).draws().is_prefix_of(final(rng).draws()),
        r matches Ok(o) ==> trial_from_draws(
            n_door,
            n_leftclose,
            final(rng).draws().skip(old(rng).draws().len() as int),
            o,
        ),
        r matches Ok(o) ==> !(o.0 && o.1),
        r matches Ok(o) ==> (n_leftclose == 2 ==> o.0 != o.1),
{
    if n_leftclose < 2 || n_door <= n_leftclose {
        return Err(MontyError::InvalidParameter);
    }
    let ghost before = rng.draws();
    // Past the check above no draw comes back empty: the `None` arms below
    // are proved unreachable.
    let door_car = match rng.choose_below(n_door) {
        Some(d) => d,
        None => return Err(MontyError::InvalidParameter),
    };
    let door_chosen = match rng.choose_below(n_door) {
        Some(d) => d,
        None => return Err(MontyError::InvalidParameter),
    };
    let untouched: usize = if door_car == door_chosen { 1 } else { 2 };
    let openable_doors = eliminable_doors(n_door, door_car, door_chosen);
    let left_closed = rng.choose_several(&openable_doors, n_leftclose - untouched);
    proof {
        assert forall|k: int| 0 <= k < left_closed@.len() implies openable(
            n_door,
            door_car,
            door_chosen,
            #[trigger] left_closed@[k],
        ) by {
            let x = left_closed@[k];
            assert(left_closed@.contains(x));
            assert(left_closed@.to_multiset().count(x) > 0);
            assert(openable_doors@.to_multiset().count(x) > 0);
            assert(openable_doors@.contains(x));
        }
    }
    let candidates = switch_candidates(&left_closed, door_car, door_chosen);
    proof {
        if door_car != door_chosen {
            assert(candidates@.contains(door_car));
        } else {
            let x = left_closed@[0];
            assert(left_closed@.contains(x));
            assert(candidates@.contains(x));
        }
    }
    let door_changed = match rng.choose_one(&candidates) {
        Some(d) => d,
        None => return Err(MontyError::InvalidParameter),
    };
    let o = trial_outcome(door_car, door_chosen, door_changed);
    proof {
        assert(trial_run(n_door, n_leftclose, door_car, door_chosen, left_closed@, door_changed, o));
        let d = rng.draws().skip(before.len() as int);
        assert(rng.draws() =~= before + seq![door_car, door_chosen] + left_closed@ + seq![door_changed]);
        assert(before =~= rng.draws().subrange(0, before.len() as int));
        assert(d =~= seq![door_car, door_chosen] + left_closed@ + seq![door_changed]);
        assert(d.subrange(2, d.len() - 1) =~= left_closed@);
        lemma_never_both_win(n_door, n_leftclose, door_car, door_chosen, left_closed@, door_changed, o);
        if n_leftclose == 2 {
            lemma_two_left_exactly_one_wins(
                n_door,
                n_leftclose,
                door_car,
                door_chosen,
                left_closed@,
                door_changed,
                o,
            );
        }
    }
    Ok(o)
}

} // verus!
