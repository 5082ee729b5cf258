//! Mixed-radix numbering of index tuples.
//!
//! A tuple `t` with `t[i] < lens[i]` picks one position in each of the
//! factors whose lengths are `lens`. Such tuples are numbered in odometer
//! order: the rightmost position varies fastest.
use vstd::prelude::*;
use vstd::arithmetic::div_mod::lemma_fundamental_div_mod;
use vstd::arithmetic::div_mod::lemma_fundamental_div_mod_converse;
use vstd::arithmetic::div_mod::lemma_div_denominator;
use vstd::arithmetic::div_mod::lemma_mod_breakdown;

verus! {

/// Number of index tuples for factors of lengths `lens`.
pub open spec fn product(lens: Seq<nat>) -> nat
    decreases lens.len(),
{
    if lens.len() == 0 {
        1
    } else {
        product(lens.drop_last()) * lens.last()
    }
}

/// `t` picks one valid position in each factor.
pub open spec fn valid_tuple(lens: Seq<nat>, t: Seq<nat>) -> bool {
    &&& t.len() == lens.len()
    &&& forall|i: int| 0 <= i < t.len() ==> #[trigger] t[i] < lens[i]
}

/// Position of the tuple `t` in odometer order.
pub open spec fn rank(lens: Seq<nat>, t: Seq<nat>) -> nat
    decreases t.len(),
{
    if t.len() == 0 || lens.len() == 0 {
        0
    } else {
        rank(lens.drop_last(), t.drop_last()) * lens.last() + t.last()
    }
}

/// The tuple at position `p` in odometer order.
pub open spec fn digits(lens: Seq<nat>, p: nat) -> Seq<nat>
    decreases lens.len(),
{
    if lens.len() == 0 {
        Seq::empty()
    } else {
        digits(lens.drop_last(), p / lens.last()).push(p % lens.last())
    }
}

/// The odometer step: the rightmost position that can still grow grows by
/// one and every position to its right wraps to zero; `None` when every
/// position is already at its last value.
pub open spec fn odometer_step(lens: Seq<nat>, t: Seq<nat>) -> Option<Seq<nat>>
    decreases t.len(),
{
    if t.len() == 0 || lens.len() == 0 {
        None
    } else if t.last() + 1 < lens.last() {
        Some(t.drop_last().push((t.last() + 1) as nat))
    } else {
        match odometer_step(lens.drop_last(), t.drop_last()) {
            Some(u) => Some(u.push(0nat)),
            None => None,
        }
    }
}

/// `m` zeros.
pub open spec fn zeros(m: nat) -> Seq<nat> {
    Seq::new(m, |j: int| 0nat)
}

proof fn lemma_drop_last_valid(lens: Seq<nat>, t: Seq<nat>)
    requires
        valid_tuple(lens, t),
        lens.len() > 0,
    ensures
        valid_tuple(lens.drop_last(), t.drop_last()),
        t.last() < lens.last(),
{
    assert forall|i: int| 0 <= i < t.drop_last().len() implies #[trigger] t.drop_last()[i]
        < lens.drop_last()[i] by {
        assert(t[i] < lens[i]);
    }
    assert(t[t.len() - 1] < lens[lens.len() - 1]);
}

/// The product is zero exactly when some factor is empty.
pub proof fn lemma_product_zero(lens: Seq<nat>)
    ensures
        product(lens) == 0 <==> exists|i: int| 0 <= i < lens.len() && #[trigger] lens[i] == 0,
    decreases lens.len(),
{
    if lens.len() > 0 {
        let init = lens.drop_last();
        lemma_product_zero(init);
        let a = product(init);
        let b = lens.last();
        assert(a * b == 0 <==> a == 0 || b == 0) by (nonlinear_arith);
        if exists|i: int| 0 <= i < lens.len() && #[trigger] lens[i] == 0 {
            let i = choose|i: int| 0 <= i < lens.len() && #[trigger] lens[i] == 0;
            if i < lens.len() - 1 {
                assert(init[i] == 0);
            }
        }
        if exists|i: int| 0 <= i < init.len() && #[trigger] init[i] == 0 {
            let i = choose|i: int| 0 <= i < init.len() && #[trigger] init[i] == 0;
            assert(lens[i] == 0);
        }
        if b == 0 {
            assert(lens[lens.len() - 1] == 0);
        }
    }
}

/// A valid tuple has a position below the product.
pub proof fn lemma_rank_bound(lens: Seq<nat>, t: Seq<nat>)
    requires
        valid_tuple(lens, t),
    ensures
        rank(lens, t) < product(lens),
    decreases t.len(),
{
    if t.len() > 0 {
        lemma_drop_last_valid(lens, t);
        lemma_rank_bound(lens.drop_last(), t.drop_last());
        let r = rank(lens.drop_last(), t.drop_last());
        let p = product(lens.drop_last());
        let l = lens.last();
        let d = t.last();
        assert(r * l + d < p * l) by (nonlinear_arith)
            requires
                r < p,
                d < l,
        {
            assert(r * l <= (p - 1) * l);
            assert((p - 1) * l == p * l - l);
        }
    }
}

/// Numbering a valid tuple and reading it back gives the tuple.
pub proof fn lemma_digits_of_rank(lens: Seq<nat>, t: Seq<nat>)
    requires
        valid_tuple(lens, t),
    ensures
        digits(lens, rank(lens, t)) == t,
    decreases t.len(),
{
    if t.len() > 0 {
        lemma_drop_last_valid(lens, t);
        let r = rank(lens.drop_last(), t.drop_last());
        let l = lens.last() as int;
        let d = t.last() as int;
        let x = r * l + d;
        lemma_fundamental_div_mod_converse(x, l, r as int, d);
        lemma_digits_of_rank(lens.drop_last(), t.drop_last());
        assert(t.drop_last().push(t.last()) =~= t);
    } else {
        assert(t =~= Seq::<nat>::empty());
    }
}

/// Every position below the product reads back as a valid tuple with that
/// position.
pub proof fn lemma_rank_of_digits(lens: Seq<nat>, p: nat)
    requires
        p < product(lens),
    ensures
        valid_tuple(lens, digits(lens, p)),
        rank(lens, digits(lens, p)) == p,
    decreases lens.len(),
{
    if lens.len() > 0 {
        let init = lens.drop_last();
        let l = lens.last();
        let pi = product(init);
        assert(l > 0) by {
            assert(pi * l == 0 ==> p < 0) by (nonlinear_arith)
                requires
                    p < pi * l,
            ;
            assert(pi * 0 == 0) by (nonlinear_arith);
        }
        lemma_fundamental_div_mod(p as int, l as int);
        let q = p / l;
        let r = p % l;
        assert(q < pi) by (nonlinear_arith)
            requires
                p < pi * l,
                p == l * q + r,
                r >= 0,
                l > 0,
        {
            if q >= pi {
                assert(l * q >= l * pi);
            }
        }
        lemma_rank_of_digits(init, q);
        let d = digits(lens, p);
        assert(d.drop_last() =~= digits(init, q));
        assert forall|i: int| 0 <= i < d.len() implies #[trigger] d[i] < lens[i] by {
            if i < d.len() - 1 {
                assert(d[i] == digits(init, q)[i]);
                assert(digits(init, q)[i] < init[i]);
            }
        }
        assert(rank(init, digits(init, q)) * l + r == p) by (nonlinear_arith)
            requires
                rank(init, digits(init, q)) == q,
                p == l * q + r,
        ;
    }
}

/// Distinct positions below the product read back as distinct tuples.
pub proof fn lemma_digits_injective(lens: Seq<nat>, p: nat, q: nat)
    requires
        p < product(lens),
        q < product(lens),
        p != q,
    ensures
        digits(lens, p) != digits(lens, q),
{
    lemma_rank_of_digits(lens, p);
    lemma_rank_of_digits(lens, q);
}

/// The odometer step moves a valid tuple to the next position, and fails
/// exactly on the tuple at the last position.
pub proof fn lemma_odometer_step(lens: Seq<nat>, t: Seq<nat>)
    requires
        valid_tuple(lens, t),
    ensures
        match odometer_step(lens, t) {
            Some(u) => valid_tuple(lens, u) && rank(lens, u) == rank(lens, t) + 1,
            None => rank(lens, t) + 1 == product(lens),
        },
    decreases t.len(),
{
    if t.len() > 0 {
        lemma_drop_last_valid(lens, t);
        let init = lens.drop_last();
        let ti = t.drop_last();
        let l = lens.last();
        let d = t.last();
        let r = rank(init, ti);
        if d + 1 < l {
            let u = ti.push((d + 1) as nat);
            assert(u.drop_last() =~= ti);
            assert forall|i: int| 0 <= i < u.len() implies #[trigger] u[i] < lens[i] by {
                if i < u.len() - 1 {
                    assert(u[i] == t[i]);
                }
            }
        } else {
            lemma_odometer_step(init, ti);
            assert(d + 1 == l);
            match odometer_step(init, ti) {
                Some(u0) => {
                    let u = u0.push(0nat);
                    assert(u.drop_last() =~= u0);
                    assert forall|i: int| 0 <= i < u.len() implies #[trigger] u[i] < lens[i] by {
                        if i < u.len() - 1 {
                            assert(u[i] == u0[i]);
                            assert(u0[i] < init[i]);
                        }
                    }
                    assert((r + 1) * l + 0 == r * l + d + 1) by (nonlinear_arith)
                        requires
                            d + 1 == l,
                    ;
                },
                None => {
                    assert((r + 1) * l == r * l + d + 1) by (nonlinear_arith)
                        requires
                            d + 1 == l,
                    ;
                },
            }
        }
    }
}

/// The first position is the all-zero tuple.
pub proof fn lemma_digits_zero(lens: Seq<nat>)
    requires
        product(lens) > 0,
    ensures
        digits(lens, 0) == zeros(lens.len()),
    decreases lens.len(),
{
    if lens.len() > 0 {
        lemma_product_zero(lens);
        lemma_product_zero(lens.drop_last());
        assert(lens[lens.len() - 1] != 0);
        if product(lens.drop_last()) == 0 {
            let i = choose|i: int|
                0 <= i < lens.drop_last().len() && #[trigger] lens.drop_last()[i] == 0;
            assert(lens[i] == 0);
        }
        lemma_digits_zero(lens.drop_last());
        assert(zeros((lens.len() - 1) as nat).push(0nat) =~= zeros(lens.len()));
    } else {
        assert(digits(lens, 0) =~= zeros(0));
    }
}

/// The product of concatenated lengths is the product of the two products.
pub proof fn lemma_product_concat(a: Seq<nat>, b: Seq<nat>)
    ensures
        product(a + b) == product(a) * product(b),
    decreases b.len(),
{
    if b.len() == 0 {
        assert(a + b =~= a);
        assert(product(a) * 1 == product(a)) by (nonlinear_arith);
    } else {
        let bi = b.drop_last();
        assert((a + b).drop_last() =~= a + bi);
        assert((a + b).last() == b.last());
        lemma_product_concat(a, bi);
        let pa = product(a);
        let pb = product(bi);
        let l = b.last();
        assert((pa * pb) * l == pa * (pb * l)) by (nonlinear_arith);
    }
}

/// Reading a position against concatenated lengths splits it in two: the
/// quotient by the right product numbers the left part, the remainder the
/// right part.
pub proof fn lemma_digits_concat(a: Seq<nat>, b: Seq<nat>, p: nat)
    requires
        product(b) > 0,
    ensures
        digits(a + b, p) == digits(a, p / product(b)) + digits(b, p % product(b)),
    decreases b.len(),
{
    if b.len() == 0 {
        assert(a + b =~= a);
        assert(p / 1 == p && p % 1 == 0) by (nonlinear_arith);
        assert(digits(a, p) + digits(b, 0) =~= digits(a, p));
    } else {
        let bi = b.drop_last();
        let l = b.last();
        let pb = product(bi);
        assert((a + b).drop_last() =~= a + bi);
        assert((a + b).last() == l);
        assert(pb > 0 && l > 0) by (nonlinear_arith)
            requires
                pb * l > 0,
        ;
        let q = p / l;
        lemma_digits_concat(a, bi, q);
        lemma_div_denominator(p as int, l as int, pb as int);
        lemma_mod_breakdown(p as int, l as int, pb as int);
        assert(l * pb == pb * l) by (nonlinear_arith);
        let r = p % (pb * l);
        lemma_fundamental_div_mod_converse(r as int, l as int, (q % pb) as int, (p % l) as int);
        assert(digits(b, r) =~= digits(bi, r / l).push(r % l));
        assert(digits(a + b, p) =~= digits(a + bi, q).push(p % l));
        assert(digits(a, q / pb) + digits(bi, q % pb) + seq![p % l] =~= digits(a, p / product(b))
            + digits(b, p % product(b)));
    }
}

} // verus!
