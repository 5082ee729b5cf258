//! The cartesian product of a sequence of factors, enumerated lazily in
//! odometer order (the rightmost index varies fastest).
use vstd::prelude::*;
use vstd::arithmetic::div_mod::lemma_fundamental_div_mod_converse;
use crate::mixed_radix::{
    product, valid_tuple, rank, digits, odometer_step, zeros,
    lemma_product_zero, lemma_rank_bound, lemma_digits_of_rank, lemma_odometer_step,
    lemma_rank_of_digits, lemma_digits_injective, lemma_digits_zero, lemma_product_concat,
    lemma_digits_concat,
};

verus! {

/// Lengths of the factors.
pub open spec fn factor_lens<T>(fs: Seq<Seq<T>>) -> Seq<nat> {
    Seq::new(fs.len(), |i: int| fs[i].len())
}

/// The combination that takes `fs[i][t[i]]` from each factor.
pub open spec fn combination<T>(fs: Seq<Seq<T>>, t: Seq<nat>) -> Seq<T> {
    Seq::new(fs.len(), |i: int| fs[i][t[i] as int])
}

/// Every combination of one element from each factor, in odometer order.
pub open spec fn cartesian_product<T>(fs: Seq<Seq<T>>) -> Seq<Seq<T>> {
    Seq::new(
        product(factor_lens(fs)),
        |p: int| combination(fs, digits(factor_lens(fs), p as nat)),
    )
}

/// The contents of a vector of vectors.
pub open spec fn vec_seqs<T>(fs: Seq<Vec<T>>) -> Seq<Seq<T>> {
    Seq::new(fs.len(), |i: int| fs[i]@)
}

/// Iterator returned by [`cartesian`].
pub struct CartesianIter<T> {
    factors: Vec<Vec<T>>,
    indices: Vec<usize>,
    done: bool,
    /// `true` when an empty factor forced the product to zero: done before any yield.
    empty_fold: bool,
}

/// The index tuple held in a vector of positions.
spec fn tuple_of(indices: Seq<usize>) -> Seq<nat> {
    Seq::new(indices.len(), |i: int| indices[i] as nat)
}

impl<T> CartesianIter<T> {
    /// The factors the iterator enumerates (none once an empty factor has
    /// folded the product).
    pub closed spec fn factor_seqs(&self) -> Seq<Seq<T>> {
        vec_seqs(self.factors@)
    }

    /// How many combinations the iterator enumerates in all.
    spec fn total(&self) -> nat {
        if self.empty_fold {
            0
        } else {
            product(factor_lens(self.factor_seqs()))
        }
    }

    /// How many combinations the iterator has yielded so far.
    spec fn position(&self) -> nat {
        if self.done {
            self.total()
        } else {
            rank(factor_lens(self.factor_seqs()), tuple_of(self.indices@))
        }
    }

    /// The representation invariant: a folded product is done and holds no
    /// factors; while not done, the indices pick one valid position in each
    /// factor (so every factor is non-empty).
    #[verifier::type_invariant]
    pub closed spec fn well_formed(&self) -> bool {
        &&& self.empty_fold ==> self.done && self.factors.len() == 0
        &&& !self.done ==> {
            &&& self.indices.len() == self.factors.len()
            &&& valid_tuple(factor_lens(self.factor_seqs()), tuple_of(self.indices@))
        }
    }
}

impl<T> View for CartesianIter<T> {
    type V = Seq<Seq<T>>;

    /// The combinations still to be yielded, in order.
    closed spec fn view(&self) -> Seq<Seq<T>> {
        let fs = self.factor_seqs();
        let pos = self.position();
        Seq::new(
            (self.total() - pos) as nat,
            |k: int| combination(fs, digits(factor_lens(fs), (pos + k) as nat)),
        )
    }
}

/// The tuple reached after an odometer step, padded with `m` zeros on the right.
spec fn pad_zeros(o: Option<Seq<nat>>, m: nat) -> Option<Seq<nat>> {
    match o {
        Some(u) => Some(u + zeros(m)),
        None => None,
    }
}

/// Advances `indices` by one odometer step over factors of the given lengths;
/// on the last tuple every index wraps to zero and `true` is returned.
fn odometer_advance<T>(indices: &mut Vec<usize>, factors: &Vec<Vec<T>>) -> (wrapped: bool)
    requires
        old(indices).len() == factors.len(),
        valid_tuple(factor_lens(vec_seqs(factors@)), tuple_of(old(indices)@)),
    ensures
        final(indices).len() == old(indices).len(),
        match odometer_step(factor_lens(vec_seqs(factors@)), tuple_of(old(indices)@)) {
            Some(u) => !wrapped && tuple_of(final(indices)@) == u,
            None => wrapped && tuple_of(final(indices)@) == zeros(old(indices).len() as nat),
        },
    no_unwind
{
    let ghost lens = factor_lens(vec_seqs(factors@));
    let ghost t = tuple_of(indices@);
    let n = indices.len();
    let mut k = n;
    let mut wrapped = false;
    proof {
        assert(lens.take(n as int) =~= lens);
        assert(t.take(n as int) =~= t);
        match odometer_step(lens, t) {
            Some(u) => {
                assert(u + zeros(0) =~= u);
            },
            None => {},
        }
    }
    loop
        invariant_except_break
            k <= n,
            !wrapped,
            tuple_of(indices@).take(k as int) == t.take(k as int),
            forall|j: int| k <= j < n ==> indices@[j] == 0,
            odometer_step(lens, t) == pad_zeros(
                odometer_step(lens.take(k as int), t.take(k as int)),
                (n - k) as nat,
            ),
        invariant
            n == indices.len(),
            n == t.len(),
            n == factors.len(),
            lens == factor_lens(vec_seqs(factors@)),
            valid_tuple(lens, t),
        ensures
            n == indices.len(),
            match odometer_step(lens, t) {
                Some(u) => !wrapped && tuple_of(indices@) == u,
                None => wrapped && tuple_of(indices@) == zeros(n as nat),
            },
        decreases k,
    {
        if k == 0 {
            wrapped = true;
            proof {
                assert(tuple_of(indices@) =~= zeros(n as nat));
            }
            break;
        }
        k = k - 1;
        proof {
            assert(tuple_of(indices@).take(k as int + 1)[k as int] == t.take(k as int + 1)[k as int]);
            assert(t[k as int] < lens[k as int]);
            assert(tuple_of(indices@)[k as int] == indices@[k as int] as nat);
            assert(lens[k as int] == factors@[k as int]@.len());
            assert(indices@[k as int] < factors@[k as int].len());
            assert(lens.take(k + 1).drop_last() =~= lens.take(k as int));
            assert(t.take(k + 1).drop_last() =~= t.take(k as int));
        }
        let next_index = indices[k] + 1;
        let ghost before = indices@;
        indices[k] = next_index;
        if next_index < factors[k].len() {
            proof {
                let u = t.take(k as int).push((t[k as int] + 1) as nat);
                assert(tuple_of(indices@) =~= u + zeros((n - k - 1) as nat)) by {
                    assert forall|j: int| 0 <= j < k implies #[trigger] indices@[j] == t[j] by {
                        assert(tuple_of(before).take(k + 1)[j] == t.take(k + 1)[j]);
                    }
                }
            }
            break;
        }
        indices[k] = 0;
        proof {
            assert forall|j: int| 0 <= j < k implies #[trigger] indices@[j] == t[j] by {
                assert(tuple_of(before).take(k + 1)[j] == t.take(k + 1)[j]);
            }
            assert(tuple_of(indices@).take(k as int) =~= t.take(k as int));
            match odometer_step(lens.take(k as int), t.take(k as int)) {
                Some(u) => {
                    assert(u.push(0nat) + zeros((n - k - 1) as nat) =~= u + zeros((n - k) as nat));
                },
                None => {},
            }
        }
    }
    wrapped
}

/// Whether some factor is empty.
fn has_empty_factor<T>(factors: &Vec<Vec<T>>) -> (found: bool)
    ensures
        found <==> exists|i: int| 0 <= i < factors.len() && #[trigger] factors@[i]@.len() == 0,
{
    let mut i: usize = 0;
    while i < factors.len()
        invariant
            i <= factors.len(),
            forall|j: int| 0 <= j < i ==> #[trigger] factors@[j]@.len() != 0,
        decreases factors.len() - i,
    {
        if factors[i].len() == 0 {
            return true;
        }
        i = i + 1;
    }
    false
}

/// Generate the cartesian product of a sequence of factors.
///
/// - Empty input (no factors): yields a single empty combination.
/// - Any factor that is empty: yields zero combinations (fold-on-empty semantics).
/// - Otherwise: yields every combination of one element from each factor, with the rightmost
///   index varying fastest (odometer order).
///
/// An empty factor folds the product to zero combinations, which contributes
/// the empty match-set to set-operation composition.
pub fn cartesian<T: Clone>(factors: Vec<Vec<T>>) -> (it: CartesianIter<T>)
    ensures
        it@ == cartesian_product(vec_seqs(factors@)),
        it.well_formed(),
        (forall|i: int| 0 <= i < factors.len() ==> #[trigger] factors@[i]@.len() > 0)
            ==> it.factor_seqs() == vec_seqs(factors@),
{
    let ghost fs = vec_seqs(factors@);
    let ghost lens = factor_lens(fs);
    if factors.len() == 0 {
        // No factors: yield one empty combination.
        let it = CartesianIter {
            factors: Vec::new(),
            indices: Vec::new(),
            done: false,
            empty_fold: false,
        };
        proof {
            assert(it.factor_seqs() =~= fs);
            assert(tuple_of(it.indices@) =~= Seq::<nat>::empty());
            assert(it@ =~= cartesian_product(fs));
        }
        return it;
    }
    if has_empty_factor(&factors) {
        // Any empty factor: fold to zero combinations.
        proof {
            let i = choose|i: int| 0 <= i < factors.len() && #[trigger] factors@[i]@.len() == 0;
            assert(lens[i] == 0);
            lemma_product_zero(lens);
        }
        let it = CartesianIter {
            factors: Vec::new(),
            indices: Vec::new(),
            done: true,
            empty_fold: true,
        };
        proof {
            assert(it@ =~= cartesian_product(fs));
        }
        return it;
    }
    let n = factors.len();
    let mut indices: Vec<usize> = Vec::new();
    while indices.len() < n
        invariant
            indices.len() <= n,
            forall|j: int| 0 <= j < indices.len() ==> indices@[j] == 0,
        decreases n - indices.len(),
    {
        indices.push(0);
    }
    let it = CartesianIter { factors, indices, done: false, empty_fold: false };
    proof {
        assert(it.factor_seqs() =~= fs);
        assert forall|i: int| 0 <= i < n implies #[trigger] lens[i] > 0 by {
            assert(factors@[i]@.len() != 0);
        }
        lemma_product_zero(lens);
        let z = tuple_of(it.indices@);
        assert(valid_tuple(lens, z));
        lemma_rank_bound(lens, z);
        lemma_digits_of_rank(lens, z);
        lemma_rank_zero_tuple(lens, z);
        assert(it@ =~= cartesian_product(fs));
    }
    it
}

/// The tuple of all zeros is at position zero.
proof fn lemma_rank_zero_tuple(lens: Seq<nat>, t: Seq<nat>)
    requires
        t.len() == lens.len(),
        forall|i: int| 0 <= i < t.len() ==> #[trigger] t[i] == 0,
    ensures
        rank(lens, t) == 0,
    decreases t.len(),
{
    if t.len() > 0 {
        lemma_rank_zero_tuple(lens.drop_last(), t.drop_last());
        assert(t[t.len() - 1] == 0);
        assert(0 * lens.last() == 0) by (nonlinear_arith);
    }
}

impl<T: Clone> CartesianIter<T> {
    /// Yields the next combination, or `None` once every combination has
    /// been yielded; after that it keeps returning `None`.
    pub fn next(&mut self) -> (r: Option<Vec<T>>)
        ensures
            match r {
                Some(combo) => {
                    &&& old(self)@.len() > 0
                    &&& final(self)@ == old(self)@.drop_first()
                    &&& combo@.len() == old(self)@[0].len()
                    &&& forall|i: int|
                        0 <= i < combo@.len() ==> cloned::<T>(old(self)@[0][i], #[trigger] combo@[i])
                },
                None => old(self)@.len() == 0 && final(self)@ == old(self)@,
            },
            final(self).well_formed(),
            final(self).factor_seqs() == old(self).factor_seqs(),
    {
        proof {
            use_type_invariant(&*self);
        }
        if self.done || self.empty_fold {
            return None;
        }
        let ghost fs = self.factor_seqs();
        let ghost lens = factor_lens(fs);
        let ghost t = tuple_of(self.indices@);
        proof {
            lemma_rank_bound(lens, t);
            lemma_digits_of_rank(lens, t);
        }
        if self.factors.len() == 0 {
            // No factors: one empty combination, then done.
            self.done = true;
            proof {
                assert(self@ =~= old(self)@.drop_first());
            }
            return Some(Vec::new());
        }
        let n = self.factors.len();
        let mut combo: Vec<T> = Vec::new();
        let mut i: usize = 0;
        while i < n
            invariant
                i <= n,
                n == self.factors.len(),
                n == self.indices.len(),
                fs == vec_seqs(self.factors@),
                lens == factor_lens(fs),
                t == tuple_of(self.indices@),
                valid_tuple(lens, t),
                combo@.len() == i,
                forall|j: int|
                    0 <= j < i ==> cloned::<T>(fs[j][t[j] as int], #[trigger] combo@[j]),
            decreases n - i,
        {
            let k = self.indices[i];
            proof {
                assert(t[i as int] < lens[i as int]);
            }
            let item = self.factors[i][k].clone();
            combo.push(item);
            i = i + 1;
        }
        proof {
            lemma_odometer_step(lens, t);
            assert forall|j: int| 0 <= j < n implies #[trigger] zeros(n as nat)[j] < lens[j] by {
                assert(t[j] < lens[j]);
            }
        }
        // Increment the odometer (rightmost index varies fastest).
        let wrapped = odometer_advance(&mut self.indices, &self.factors);
        if wrapped {
            self.done = true;
        }
        proof {
            assert(self.factor_seqs() =~= fs);
            assert(self@ =~= old(self)@.drop_first());
        }
        Some(combo)
    }
}

/// With no factors the product is a single empty combination.
pub proof fn lemma_cartesian_no_factors<T>()
    ensures
        cartesian_product(Seq::<Seq<T>>::empty()) == seq![Seq::<T>::empty()],
{
    let fs = Seq::<Seq<T>>::empty();
    assert(factor_lens(fs) =~= Seq::<nat>::empty());
    assert(combination(fs, digits(factor_lens(fs), 0)) =~= Seq::<T>::empty());
    assert(cartesian_product(fs) =~= seq![Seq::<T>::empty()]);
}

/// The product holds no combination exactly when some factor is empty, and
/// otherwise as many as the product of the factors' lengths.
pub proof fn lemma_cartesian_count<T>(fs: Seq<Seq<T>>)
    ensures
        cartesian_product(fs).len() == product(factor_lens(fs)),
        cartesian_product(fs).len() == 0 <==> exists|i: int|
            0 <= i < fs.len() && #[trigger] fs[i].len() == 0,
{
    let lens = factor_lens(fs);
    lemma_product_zero(lens);
    if exists|i: int| 0 <= i < fs.len() && #[trigger] fs[i].len() == 0 {
        let i = choose|i: int| 0 <= i < fs.len() && #[trigger] fs[i].len() == 0;
        assert(lens[i] == 0);
    }
    if exists|i: int| 0 <= i < lens.len() && #[trigger] lens[i] == 0 {
        let i = choose|i: int| 0 <= i < lens.len() && #[trigger] lens[i] == 0;
        assert(fs[i].len() == 0);
    }
}

/// Every combination of one element from each factor occurs in the product,
/// at the odometer position of its index tuple.
pub proof fn lemma_cartesian_complete<T>(fs: Seq<Seq<T>>, t: Seq<nat>)
    requires
        valid_tuple(factor_lens(fs), t),
    ensures
        rank(factor_lens(fs), t) < cartesian_product(fs).len(),
        cartesian_product(fs)[rank(factor_lens(fs), t) as int] == combination(fs, t),
{
    let lens = factor_lens(fs);
    lemma_rank_bound(lens, t);
    lemma_digits_of_rank(lens, t);
}

/// Every combination in the product takes one element from each factor.
pub proof fn lemma_cartesian_sound<T>(fs: Seq<Seq<T>>, p: nat)
    requires
        p < cartesian_product(fs).len(),
    ensures
        valid_tuple(factor_lens(fs), digits(factor_lens(fs), p)),
        cartesian_product(fs)[p as int].len() == fs.len(),
        forall|i: int|
            0 <= i < fs.len() ==> {
                let j = digits(factor_lens(fs), p)[i] as int;
                &&& 0 <= j < fs[i].len()
                &&& #[trigger] cartesian_product(fs)[p as int][i] == fs[i][j]
            },
{
    let lens = factor_lens(fs);
    lemma_rank_of_digits(lens, p);
    assert forall|i: int| 0 <= i < fs.len() implies digits(lens, p)[i] < fs[i].len() by {
        assert(digits(lens, p)[i] < lens[i]);
    }
}

/// Distinct positions of the product pick distinct index tuples: no
/// combination of positions is yielded twice.
pub proof fn lemma_cartesian_distinct<T>(fs: Seq<Seq<T>>, p: nat, q: nat)
    requires
        p < cartesian_product(fs).len(),
        q < cartesian_product(fs).len(),
        p != q,
    ensures
        digits(factor_lens(fs), p) != digits(factor_lens(fs), q),
{
    lemma_digits_injective(factor_lens(fs), p, q);
}

/// Odometer order: the product starts at the all-zero index tuple, each
/// next tuple is the odometer step of the one before (the rightmost index
/// varies fastest), and the last tuple has no odometer step.
pub proof fn lemma_cartesian_odometer_order<T>(fs: Seq<Seq<T>>, p: nat)
    requires
        p < cartesian_product(fs).len(),
    ensures
        digits(factor_lens(fs), 0) == zeros(fs.len()),
        p + 1 < cartesian_product(fs).len() ==> odometer_step(
            factor_lens(fs),
            digits(factor_lens(fs), p),
        ) == Some(digits(factor_lens(fs), (p + 1) as nat)),
        p + 1 == cartesian_product(fs).len() ==> odometer_step(
            factor_lens(fs),
            digits(factor_lens(fs), p),
        ) is None,
{
    let lens = factor_lens(fs);
    lemma_digits_zero(lens);
    lemma_rank_of_digits(lens, p);
    let t = digits(lens, p);
    lemma_odometer_step(lens, t);
    match odometer_step(lens, t) {
        Some(u) => {
            lemma_digits_of_rank(lens, u);
            lemma_rank_bound(lens, u);
        },
        None => {},
    }
}

/// The product of concatenated factor lists is the pairwise join of the two
/// products, the left one in the outer loop: position `p` joins combination
/// `p / n` of the left product with combination `p % n` of the right one,
/// where `n` is the size of the right product.
pub proof fn lemma_cartesian_concat<T>(fs: Seq<Seq<T>>, gs: Seq<Seq<T>>)
    ensures
        cartesian_product(fs + gs).len() == cartesian_product(fs).len() * cartesian_product(
            gs,
        ).len(),
        forall|p: int|
            0 <= p < cartesian_product(fs + gs).len() ==> #[trigger] cartesian_product(fs + gs)[p]
                == cartesian_product(fs)[p / (cartesian_product(gs).len() as int)]
                + cartesian_product(gs)[p % (cartesian_product(gs).len() as int)],
{
    let lf = factor_lens(fs);
    let lg = factor_lens(gs);
    assert(factor_lens(fs + gs) =~= lf + lg);
    lemma_product_concat(lf, lg);
    let pf = product(lf);
    let pg = product(lg);
    assert forall|p: int| 0 <= p < cartesian_product(fs + gs).len() implies #[trigger] cartesian_product(
        fs + gs,
    )[p] == cartesian_product(fs)[p / (pg as int)] + cartesian_product(gs)[p % (pg as int)] by {
        assert(pg > 0) by (nonlinear_arith)
            requires
                0 <= p < pf * pg,
        ;
        let q = (p as nat) / pg;
        let r = (p as nat) % pg;
        assert(q < pf) by (nonlinear_arith)
            requires
                0 <= p < pf * pg,
                pg > 0,
                q == p / (pg as int),
        {
            if q >= pf {
                assert(p / (pg as int) * pg >= pf * pg);
                assert(p >= p / (pg as int) * pg);
            }
        }
        lemma_digits_concat(lf, lg, p as nat);
        lemma_rank_of_digits(lf, q);
        lemma_rank_of_digits(lg, r);
        let da = digits(lf, q);
        let db = digits(lg, r);
        assert(combination(fs + gs, da + db) =~= combination(fs, da) + combination(gs, db));
    }
}

/// The product of a single factor yields each of its elements alone, in
/// order. With `lemma_cartesian_no_factors` and `lemma_cartesian_concat` this
/// fixes the product of every list of factors.
pub proof fn lemma_cartesian_single_factor<T>(f: Seq<T>)
    ensures
        cartesian_product(seq![f]) == Seq::new(f.len(), |i: int| seq![f[i]]),
{
    let fs = seq![f];
    let lens = factor_lens(fs);
    assert(lens =~= seq![f.len()]);
    assert(lens.drop_last() =~= Seq::<nat>::empty());
    assert(product(lens) == f.len()) by {
        assert(product(lens.drop_last()) == 1);
        assert(1 * f.len() == f.len()) by (nonlinear_arith);
    }
    assert forall|p: int| 0 <= p < f.len() implies #[trigger] cartesian_product(fs)[p] == seq![f[p]] by {
        assert(0 * (f.len() as int) + p == p) by (nonlinear_arith);
        lemma_fundamental_div_mod_converse(p, f.len() as int, 0, p);
        assert(lens.last() == f.len());
        assert(digits(lens.drop_last(), (p as nat) / f.len()) =~= Seq::<nat>::empty());
        assert(digits(lens, p as nat) =~= seq![p as nat]);
        assert(combination(fs, seq![p as nat]) =~= seq![f[p]]);
    }
    assert(cartesian_product(fs) =~= Seq::new(f.len(), |i: int| seq![f[i]]));
}

} // verus!
