//! Parameters of the Ewens-Pitman attraction distribution, and the choice of allocation order.
use vstd::prelude::*;
use crate::matrix::SquareMatrixBorrower;
use crate::perm::{is_greedy_path, is_permutation, is_similarity_walk, walk, Permutation};
use crate::random::draw_below;

verus! {

/// A ratio `num / den` of small integers.
#[derive(Clone, Copy)]
pub struct Fraction {
    pub num: i16,
    pub den: u16,
}

impl Fraction {
    pub open spec fn wf(&self) -> bool {
        self.den > 0
    }

    /// The ratio `num / den`, if `den` is not zero.
    pub fn new(num: i16, den: u16) -> (r: Option<Self>)
        ensures
            r is Some <==> den > 0,
            r matches Some(f) ==> f.num == num && f.den == den && f.wf(),
    {
        if den == 0 {
            None
        } else {
            Some(Fraction { num, den })
        }
    }
}

/// Everything one draw needs: similarities, the order of allocation, mass and discount.
pub struct EpaParameters<'a> {
    similarity: SquareMatrixBorrower<'a>,
    permutation: Permutation,
    mass: Fraction,
    discount: Fraction,
}

impl<'a> EpaParameters<'a> {
    pub closed spec fn sim(&self) -> SquareMatrixBorrower<'a> {
        self.similarity
    }

    pub closed spec fn order(&self) -> Seq<usize> {
        self.permutation@
    }

    pub closed spec fn mass_of(&self) -> Fraction {
        self.mass
    }

    pub closed spec fn discount_of(&self) -> Fraction {
        self.discount
    }

    pub open spec fn n(&self) -> nat {
        self.sim().side()
    }

    pub open spec fn wf(&self) -> bool {
        &&& self.sim().wf()
        &&& is_permutation(self.order(), self.n())
        &&& self.mass_of().wf()
        &&& self.discount_of().wf()
    }

    /// The parameters, if the matrix and the permutation are over the same number of items.
    pub fn new(similarity: SquareMatrixBorrower<'a>, permutation: Permutation, mass: Fraction, discount: Fraction) -> (r: Option<Self>)
        requires
            similarity.wf(),
            permutation.wf(),
            mass.wf(),
            discount.wf(),
        ensures
            r is Some <==> similarity.side() == permutation@.len(),
            r matches Some(p) ==> p.wf() && p.sim() == similarity && p.order() == permutation@
                && p.mass_of() == mass && p.discount_of() == discount,
    {
        if similarity.n_items() != permutation.n_items() {
            None
        } else {
            Some(EpaParameters { similarity, permutation, mass, discount })
        }
    }

    pub fn similarity(&self) -> (r: SquareMatrixBorrower<'a>)
        ensures
            r == self.sim(),
    {
        self.similarity
    }

    pub fn mass(&self) -> (r: Fraction)
        ensures
            r == self.mass_of(),
    {
        self.mass
    }

    pub fn discount(&self) -> (r: Fraction)
        ensures
            r == self.discount_of(),
    {
        self.discount
    }

    pub fn permutation(&self) -> (r: &Permutation)
        ensures
            r@ == self.order(),
    {
        &self.permutation
    }

    /// Replaces the order of allocation by one built with `strategy`: a shuffle of the items,
    /// or a path from a uniformly drawn start that goes on greedily (`Nearest`) or by a draw
    /// weighted by similarity (`RandomNearest`). The paths need at least one item.
    pub fn shuffle_permutation(&mut self, strategy: PermutationStrategy, rng: &mut rand::rngs::StdRng)
        requires
            old(self).wf(),
            strategy is Shuffle || old(self).n() >= 1,
        ensures
            final(self).wf(),
            final(self).sim() == old(self).sim(),
            final(self).mass_of() == old(self).mass_of(),
            final(self).discount_of() == old(self).discount_of(),
            final(self).order().len() == old(self).order().len(),
            strategy is Shuffle ==> final(self).order().to_multiset() == old(self).order().to_multiset(),
            strategy is Nearest ==> is_greedy_path(final(self).sim(), final(self).order()),
            strategy is RandomNearest ==> is_similarity_walk(final(self).sim(), final(self).order()),
            strategy is RandomNearest ==> exists|ds: Seq<u128>| ds.len() + 1 == old(self).n()
                && #[trigger] walk(final(self).sim(), final(self).order()[0], ds).0 == final(self).order(),
    {
        let n = self.similarity.n_items();
        match strategy {
            PermutationStrategy::Shuffle => {
                self.permutation.shuffle(rng);
            },
            PermutationStrategy::Nearest => {
                let start = draw_below(rng, n as u128) as usize;
                self.permutation = crate::perm::nearest_permutation(&self.similarity, start);
            },
            PermutationStrategy::RandomNearest => {
                let start = draw_below(rng, n as u128) as usize;
                self.permutation = crate::perm::random_nearest_permutation(&self.similarity, start, rng);
            },
        }
    }
}

/// How to build the order in which items are allocated.
pub enum PermutationStrategy {
    /// A uniformly random order.
    Shuffle,
    /// From a random start, always on to the most similar item not yet visited.
    Nearest,
    /// From a random start, on to an item not yet visited, drawn by similarity.
    RandomNearest,
}

} // verus!
