use vstd::prelude::*;
use rand::seq::IteratorRandom;
use rand::seq::SliceRandom;

verus! {

#[verifier::external_type_specification]
#[verifier::external_body]
pub struct ExStdRng(rand::rngs::StdRng);

/// A random generator for the game, with a ghost record of every door it has
/// handed out, in order.
pub struct DoorRng {
    rng: rand::rngs::StdRng,
    log: Ghost<Seq<usize>>,
}

impl DoorRng {
    /// The doors drawn so far, oldest first.
    pub closed spec fn draws(&self) -> Seq<usize> {
        self.log@
    }

    /// Wraps `rng`; nothing has been drawn yet.
    pub fn new(rng: rand::rngs::StdRng) -> (r: DoorRng)
        ensures
            r.draws() == Seq::<usize>::empty(),
    {
        DoorRng { rng, log: Ghost(Seq::empty()) }
    }

    /// Relies on `IteratorRandom::choose` over the range `0..n`: `None` for an
    /// empty range, otherwise one of its values.
    #[verifier::external_body]
    pub(crate) fn choose_below(&mut self, n: usize) -> (r: Option<usize>)
        ensures
            r is None <==> n == 0,
            r matches Some(d) ==> d < n,
            r matches Some(d) ==> final(self).draws() == old(self).draws().push(d),
            r is None ==> final(self).draws() == old(self).draws(),
    {
        (0..n).choose(&mut self.rng)
    }

    /// Relies on `SliceRandom::choose`: `None` for an empty slice, otherwise
    /// one of its elements.
    #[verifier::external_body]
    pub(crate) fn choose_one(&mut self, s: &Vec<usize>) -> (r: Option<usize>)
        ensures
            r is None <==> s@.len() == 0,
            r matches Some(d) ==> s@.contains(d),
            r matches Some(d) ==> final(self).draws() == old(self).draws().push(d),
            r is None ==> final(self).draws() == old(self).draws(),
    {
        s.choose(&mut self.rng).copied()
    }

    /// Relies on `SliceRandom::choose_multiple`: `min(amount, s.len())`
    /// elements taken at distinct positions of `s`, so a sub-multiset of it.
    #[verifier::external_body]
    pub(crate) fn choose_several(&mut self, s: &Vec<usize>, amount: usize) -> (r: Vec<usize>)
        ensures
            r@.len() == if amount <= s@.len() { amount as int } else { s@.len() as int },
            r@.to_multiset().subset_of(s@.to_multiset()),
            final(self).draws() == old(self).draws() + r@,
    {
        s.choose_multiple(&mut self.rng, amount).copied().collect()
    }
}

} // verus!
