use vstd::prelude::*;

use crate::params::{valid_params, MontyError};
use crate::random::DoorRng;
use crate::trial::{simulate_monty_hall_once, trial_from_draws, untouchable_count};

verus! {

/// How many of the trials in `s` the stayer won.
pub open spec fn count_stayed(s: Seq<(bool, bool)>) -> nat
    decreases s.len(),
{
    if s.len() == 0 {
        0
    } else {
        count_stayed(s.drop_last()) + if s.last().0 { 1nat } else { 0nat }
    }
}

/// How many of the trials in `s` the switcher won.
pub open spec fn count_switched(s: Seq<(bool, bool)>) -> nat
    decreases s.len(),
{
    if s.len() == 0 {
        0
    } else {
        count_switched(s.drop_last()) + if s.last().1 { 1nat } else { 0nat }
    }
}

/// Neither count exceeds the number of trials. Where no trial has both
/// strategies win, the two counts together do not either; where every trial
/// has exactly one win, they add up to it.
pub proof fn lemma_count_bounds(s: Seq<(bool, bool)>)
    ensures
        count_stayed(s) <= s.len(),
        count_switched(s) <= s.len(),
        (forall|k: int| 0 <= k < s.len() ==> !(#[trigger] s[k].0 && s[k].1)) ==> count_stayed(s)
            + count_switched(s) <= s.len(),
        (forall|k: int| 0 <= k < s.len() ==> #[trigger] s[k].0 != s[k].1) ==> count_stayed(s)
            + count_switched(s) == s.len(),
    decreases s.len(),
{
    if s.len() > 0 {
        let p = s.drop_last();
        lemma_count_bounds(p);
        if forall|k: int| 0 <= k < s.len() ==> !(#[trigger] s[k].0 && s[k].1) {
            assert forall|k: int| 0 <= k < p.len() implies !(#[trigger] p[k].0 && p[k].1) by {
                assert(p[k] == s[k]);
            }
            assert(!(s[s.len() - 1].0 && s[s.len() - 1].1));
        }
        if forall|k: int| 0 <= k < s.len() ==> #[trigger] s[k].0 != s[k].1 {
            assert forall|k: int| 0 <= k < p.len() implies #[trigger] p[k].0 != p[k].1 by {
                assert(p[k] == s[k]);
            }
            assert(s[s.len() - 1].0 != s[s.len() - 1].1);
        }
    }
}

/// How many doors one trial draws, read from its first two draws: the prize,
/// the first pick, the doors the host leaves closed besides them, and the
/// switcher's door.
pub open spec fn trial_draw_count(n_leftclose: usize, d: Seq<usize>) -> int {
    n_leftclose + 3 - untouchable_count(d[0], d[1])
}

/// The doors `d` are, front to back, the draws of `s.len()` trials whose
/// scores are `s`, and nothing more.
pub open spec fn runs_from_draws(n_door: usize, n_leftclose: usize, d: Seq<usize>, s: Seq<(bool, bool)>) -> bool
    decreases s.len(),
{
    if s.len() == 0 {
        d.len() == 0
    } else {
        let m = trial_draw_count(n_leftclose, d);
        &&& d.len() >= 2
        &&& m <= d.len()
        &&& trial_from_draws(n_door, n_leftclose, d.take(m), s[0])
        &&& runs_from_draws(n_door, n_leftclose, d.skip(m), s.skip(1))
    }
}

/// One more trial's draws, appended to the log, add its score to the end.
proof fn lemma_runs_append(
    n_door: usize,
    n_leftclose: usize,
    d: Seq<usize>,
    s: Seq<(bool, bool)>,
    e: Seq<usize>,
    o: (bool, bool),
)
    requires
        runs_from_draws(n_door, n_leftclose, d, s),
        trial_from_draws(n_door, n_leftclose, e, o),
    ensures
        runs_from_draws(n_door, n_leftclose, d + e, s.push(o)),
    decreases s.len(),
{
    reveal_with_fuel(runs_from_draws, 2);
    let m = trial_draw_count(n_leftclose, d + e);
    if s.len() == 0 {
        assert(d + e =~= e);
        assert(e.subrange(2, e.len() - 1).len() == e.len() - 3);
        assert(e.len() == m);
        assert(e.take(m) =~= e);
        assert(s.push(o)[0] == o);
        assert(e.skip(m) =~= Seq::<usize>::empty());
        assert(s.push(o).skip(1) =~= Seq::<(bool, bool)>::empty());
    } else {
        assert((d + e)[0] == d[0] && (d + e)[1] == d[1]);
        lemma_runs_append(n_door, n_leftclose, d.skip(m), s.skip(1), e, o);
        assert((d + e).take(m) =~= d.take(m));
        assert((d + e).skip(m) =~= d.skip(m) + e);
        assert(s.push(o).skip(1) =~= s.skip(1).push(o));
        assert(s.push(o)[0] == s[0]);
        assert(trial_from_draws(n_door, n_leftclose, (d + e).take(m), s.push(o)[0]));
        assert(runs_from_draws(n_door, n_leftclose, (d + e).skip(m), s.push(o).skip(1)));
    }
}

/// The result of a run of trials: hits of each strategy out of `n_trial`.
#[derive(Debug, Clone, Copy, PartialEq, Eq, Structural)]
pub struct Tally {
    pub stayed_hits: usize,
    pub switched_hits: usize,
    pub n_trial: usize,
}

impl Tally {
    /// Neither count exceeds the number of trials.
    pub open spec fn wf(&self) -> bool {
        self.stayed_hits <= self.n_trial && self.switched_hits <= self.n_trial
    }

    /// A tally of no trials.
    pub fn new() -> (t: Tally)
        ensures
            t == (Tally { stayed_hits: 0, switched_hits: 0, n_trial: 0 }),
    {
        Tally { stayed_hits: 0, switched_hits: 0, n_trial: 0 }
    }

    /// Adds one trial's `(stayed_hit, switched_hit)`.
    pub fn record(&mut self, o: (bool, bool))
        requires
            old(self).wf(),
            old(self).n_trial < usize::MAX,
        ensures
            final(self).wf(),
            final(self).n_trial == old(self).n_trial + 1,
            final(self).stayed_hits == old(self).stayed_hits + if o.0 { 1int } else { 0int },
            final(self).switched_hits == old(self).switched_hits + if o.1 { 1int } else { 0int },
    {
        if o.0 {
            self.stayed_hits = self.stayed_hits + 1;
        }
        if o.1 {
            self.switched_hits = self.switched_hits + 1;
        }
        self.n_trial = self.n_trial + 1;
    }

    /// `(stayed_hits, n_trial)`, the stayer's rate as a fraction, or `None`
    /// when no trial was run.
    pub fn stayed_ratio(&self) -> (r: Option<(usize, usize)>)
        ensures
            r == if self.n_trial == 0 {
                None
            } else {
                Some((self.stayed_hits, self.n_trial))
            },
    {
        if self.n_trial == 0 {
            None
        } else {
            Some((self.stayed_hits, self.n_trial))
        }
    }

    /// `(switched_hits, n_trial)`, the switcher's rate as a fraction, or
    /// `None` when no trial was run.
    pub fn switched_ratio(&self) -> (r: Option<(usize, usize)>)
        ensures
            r == if self.n_trial == 0 {
                None
            } else {
                Some((self.switched_hits, self.n_trial))
            },
    {
        if self.n_trial == 0 {
            None
        } else {
            Some((self.switched_hits, self.n_trial))
        }
    }
}

/// Sums the stayer's and the switcher's hits over `results`.
pub fn tally_results(results: &Vec<(bool, bool)>) -> (t: Tally)
    ensures
        t.wf(),
        t.n_trial == results@.len(),
        t.stayed_hits == count_stayed(results@),
        t.switched_hits == count_switched(results@),
{
    let mut t = Tally::new();
    let mut i: usize = 0;
    while i < results.len()
        invariant
            i <= results@.len(),
            t.wf(),
            t.n_trial == i,
            t.stayed_hits == count_stayed(results@.subrange(0, i as int)),
            t.switched_hits == count_switched(results@.subrange(0, i as int)),
        decreases results@.len() - i,
    {
        assert(results@.subrange(0, i + 1).drop_last() =~= results@.subrange(0, i as int));
        t.record(results[i]);
        i = i + 1;
    }
    assert(results@.subrange(0, i as int) =~= results@);
    t
}

/// Runs `n_trial` independent trials and tallies them.
///
/// The generator's log grows by the draws of exactly those trials, and the
/// counts are the hits among their scores.
pub fn simulate_monty_hall(
    n_door: usize,
    n_leftclose: usize,
    n_trial: usize,
    rng: &mut DoorRng,
) -> (r: Result<Tally, MontyError>)
    ensures
        r is Ok <==> valid_params(n_door, n_leftclose),
        r is Err ==> r == Err::<Tally, MontyError>(MontyError::InvalidParameter),
        r is Err ==> *final(rng) == *old(rng),
        n_trial == 0 ==> *final(rng) == *old(rng),
        old(rng).draws().is_prefix_of(final(rng).draws()),
        r matches Ok(t) ==> {
            &&& t.wf()
            &&& t.n_trial == n_trial
            &&& exists|s: Seq<(bool, bool)>|
                {
                    &&& s.len() == n_trial
                    &&& #[trigger] runs_from_draws(
                        n_door,
                        n_leftclose,
                        final(rng).draws().skip(old(rng).draws().len() as int),
                        s,
                    )
                    &&& t.stayed_hits == count_stayed(s)
                    &&& t.switched_hits == count_switched(s)
                }
        },
        r matches Ok(t) ==> t.stayed_hits + t.switched_hits <= n_trial,
        r matches Ok(t) ==> (n_leftclose == 2 ==> t.stayed_hits + t.switched_hits == n_trial),
{
    if n_leftclose < 2 || n_door <= n_leftclose {
        return Err(MontyError::InvalidParameter);
    }
    let ghost rng0 = *rng;
    let ghost len0 = rng0.draws().len() as int;
    proof {
        assert(rng0.draws().is_prefix_of(rng.draws()));
        assert(rng.draws().skip(len0) =~= Seq::<usize>::empty());
    }
    let mut results: Vec<(bool, bool)> = Vec::new();
    let mut i: usize = 0;
    while i < n_trial
        invariant
            valid_params(n_door, n_leftclose),
            i <= n_trial,
            results@.len() == i,
            len0 == rng0.draws().len(),
            i == 0 ==> *rng == rng0,
            rng0.draws().is_prefix_of(rng.draws()),
            runs_from_draws(n_door, n_leftclose, rng.draws().skip(len0), results@),
            forall|k: int| 0 <= k < results@.len() ==> !(#[trigger] results@[k].0 && results@[k].1),
            n_leftclose == 2 ==> forall|k: int| 0 <= k < results@.len() ==> #[trigger] results@[k].0 != results@[k].1,
        decreases n_trial - i,
    {
        let ghost mid = rng.draws();
        let o = match simulate_monty_hall_once(n_door, n_leftclose, rng) {
            Ok(o) => o,
            Err(e) => return Err(e),
        };
        proof {
            let e = rng.draws().skip(mid.len() as int);
            assert(rng.draws() =~= mid + e);
            lemma_runs_append(n_door, n_leftclose, mid.skip(len0), results@, e, o);
            assert(rng.draws().skip(len0) =~= mid.skip(len0) + e);
            assert(rng0.draws() =~= rng.draws().subrange(0, len0));
        }
        results.push(o);
        i = i + 1;
    }
    let t = tally_results(&results);
    proof {
        lemma_count_bounds(results@);
        assert(runs_from_draws(n_door, n_leftclose, rng.draws().skip(len0), results@));
    }
    Ok(t)
}

} // verus!
