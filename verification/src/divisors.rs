//! The mathematical model: divisibility, factor sequences, their intersection
//! and greatest common divisors, over unbounded naturals.

use vstd::arithmetic::div_mod::{
    lemma_fundamental_div_mod, lemma_mod_multiples_basic, lemma_small_mod,
};
use vstd::prelude::*;

verus! {

/// `d` is a positive divisor of `n`.
pub open spec fn divides(d: nat, n: nat) -> bool {
    d > 0 && n % d == 0
}

/// `g` is the greatest common divisor of `a` and `b`: it divides both, and no
/// common divisor is larger.
pub open spec fn is_gcd(g: nat, a: nat, b: nat) -> bool {
    &&& divides(g, a)
    &&& divides(g, b)
    &&& forall|d: nat| divides(d, a) && divides(d, b) ==> d <= g
}

/// The predicate "divides `n`".
pub open spec fn divisor_of(n: nat) -> spec_fn(nat) -> bool {
    |d: nat| divides(d, n)
}

/// The predicate "occurs in `items`".
pub open spec fn member_of(items: Seq<nat>) -> spec_fn(nat) -> bool {
    |x: nat| items.contains(x)
}

/// The naturals `lo, lo + 1, .., hi - 1` in order; empty when `hi <= lo`.
pub open spec fn span(lo: nat, hi: nat) -> Seq<nat> {
    Seq::new(
        if lo <= hi {
            (hi - lo) as nat
        } else {
            0
        },
        |i: int| (lo + i) as nat,
    )
}

/// The factor sequence of `n`: 1, then the divisors of `n` strictly between
/// 1 and `n` in ascending order, then `n` itself. Both ends are always
/// present, so `factor_seq(1)` is `[1, 1]` and `factor_seq(0)` is `[1, 0]`.
pub open spec fn factor_seq(n: nat) -> Seq<nat> {
    seq![1nat] + span(2, n).filter(divisor_of(n)) + seq![n]
}

/// The items of `a` that also occur in `b`, in the order and with the
/// multiplicity they have in `a`.
pub open spec fn common(a: Seq<nat>, b: Seq<nat>) -> Seq<nat> {
    a.filter(member_of(b))
}

/// The last of the common items of `a` and `b`, or 0 when they share none.
pub open spec fn highest_common(a: Seq<nat>, b: Seq<nat>) -> nat {
    let shared = common(a, b);
    if shared.len() == 0 {
        0
    } else {
        shared.last()
    }
}

/// The pair `(n, d)` divided through by the highest common item of the two
/// factor sequences. That item is 0 only for `(0, 0)`, which stays `(0, 0)`.
pub open spec fn reduced(n: nat, d: nat) -> (nat, nat) {
    let h = highest_common(factor_seq(n), factor_seq(d));
    if h == 0 {
        (0, 0)
    } else {
        (n / h, d / h)
    }
}

/// No item is larger than one that follows it.
pub open spec fn non_descending(s: Seq<nat>) -> bool {
    forall|i: int, j: int| 0 <= i <= j < s.len() ==> s[i] <= s[j]
}

/// Every item is smaller than all that follow it.
pub open spec fn ascending(s: Seq<nat>) -> bool {
    forall|i: int, j: int| 0 <= i < j < s.len() ==> s[i] < s[j]
}

/// A greatest common divisor is unique.
pub proof fn lemma_gcd_unique(g: nat, h: nat, a: nat, b: nat)
    requires
        is_gcd(g, a, b),
        is_gcd(h, a, b),
    ensures
        g == h,
{
}

/// A divisor of a positive number is no larger than that number.
pub proof fn lemma_divisor_bound(d: nat, n: nat)
    requires
        divides(d, n),
        n > 0,
    ensures
        d <= n,
{
    if d > n {
        lemma_small_mod(n, d);
    }
}

/// Filtering one item more: the filter of `s.push(x)` is the filter of `s`,
/// followed by `x` when `x` passes.
pub proof fn lemma_filter_push(s: Seq<nat>, x: nat, pred: spec_fn(nat) -> bool)
    ensures
        s.push(x).filter(pred) == if pred(x) {
            s.filter(pred).push(x)
        } else {
            s.filter(pred)
        },
{
    reveal(Seq::filter);
    assert(s.push(x).drop_last() =~= s);
}

/// What a filter keeps: exactly the items of `s` that pass `pred`.
pub proof fn lemma_filter_members(s: Seq<nat>, pred: spec_fn(nat) -> bool)
    ensures
        forall|x: nat| #[trigger] s.filter(pred).contains(x) ==> s.contains(x) && pred(x),
        forall|x: nat| #[trigger] s.contains(x) && pred(x) ==> s.filter(pred).contains(x),
    decreases s.len(),
{
    reveal(Seq::filter);
    let kept = s.filter(pred);
    if s.len() > 0 {
        let front = s.drop_last();
        let before = front.filter(pred);
        lemma_filter_members(front, pred);
        assert forall|x: nat| #[trigger] kept.contains(x) implies s.contains(x) && pred(x) by {
            let k = choose|k: int| 0 <= k < kept.len() && kept[k] == x;
            if pred(s.last()) && k == kept.len() - 1 {
                assert(s[s.len() - 1] == x);
            } else {
                assert(before[k] == x);
                assert(before.contains(x));
                assert(front.contains(x));
                let i = choose|i: int| 0 <= i < front.len() && front[i] == x;
                assert(s[i] == x);
            }
        }
        assert forall|x: nat| #[trigger] s.contains(x) && pred(x) implies kept.contains(x) by {
            let i = choose|i: int| 0 <= i < s.len() && s[i] == x;
            if i == s.len() - 1 {
                assert(kept[kept.len() - 1] == x);
            } else {
                assert(front[i] == x);
                assert(front.contains(x));
                assert(before.contains(x));
                let k = choose|k: int| 0 <= k < before.len() && before[k] == x;
                assert(kept[k] == x);
            }
        }
    }
}

/// In a non-descending sequence the last item that a filter keeps is the
/// largest item that passes it.
pub proof fn lemma_filter_last_is_max(s: Seq<nat>, pred: spec_fn(nat) -> bool)
    requires
        non_descending(s),
    ensures
        s.filter(pred).len() > 0 <==> exists|x: nat| s.contains(x) && pred(x),
        s.filter(pred).len() > 0 ==> {
            &&& s.contains(s.filter(pred).last())
            &&& pred(s.filter(pred).last())
            &&& forall|x: nat| s.contains(x) && pred(x) ==> x <= s.filter(pred).last()
        },
{
    lemma_filter_members(s, pred);
    let kept = s.filter(pred);
    if kept.len() > 0 {
        assert(kept.contains(kept[kept.len() - 1]));
    }
    if exists|x: nat| s.contains(x) && pred(x) {
        let x = choose|x: nat| s.contains(x) && pred(x);
        assert(s.contains(x) && pred(x));
        assert(kept.contains(x));
    }
    if kept.len() > 0 {
        lemma_filter_last_bounds(s, pred);
    }
}

/// The induction behind `lemma_filter_last_is_max`.
proof fn lemma_filter_last_bounds(s: Seq<nat>, pred: spec_fn(nat) -> bool)
    requires
        non_descending(s),
        s.filter(pred).len() > 0,
    ensures
        forall|x: nat| s.contains(x) && pred(x) ==> x <= s.filter(pred).last(),
    decreases s.len(),
{
    reveal(Seq::filter);
    let kept = s.filter(pred);
    let front = s.drop_last();
    assert(s.len() > 0);
    assert forall|x: nat| s.contains(x) && pred(x) implies x <= kept.last() by {
        let i = choose|i: int| 0 <= i < s.len() && s[i] == x;
        if pred(s.last()) {
            assert(kept.last() == s[s.len() - 1]);
        } else {
            assert(non_descending(front)) by {
                assert forall|p: int, q: int| 0 <= p <= q < front.len() implies front[p]
                    <= front[q] by {
                    assert(s[p] <= s[q]);
                }
            }
            lemma_filter_last_bounds(front, pred);
            assert(i < s.len() - 1);
            assert(front[i] == x);
            assert(front.contains(x));
        }
    }
}

/// The divisors of `n` found in `2..hi` come out ascending, each at least 2
/// and below `hi`.
pub proof fn lemma_span_filter_ascending(n: nat, hi: nat)
    ensures
        ascending(span(2, hi).filter(divisor_of(n))),
        forall|k: int|
            0 <= k < span(2, hi).filter(divisor_of(n)).len() ==> 2 <= #[trigger] span(
                2,
                hi,
            ).filter(divisor_of(n))[k] < hi,
    decreases hi,
{
    reveal(Seq::filter);
    if hi > 2 {
        let below = (hi - 1) as nat;
        lemma_span_filter_ascending(n, below);
        assert(span(2, hi) =~= span(2, below).push(below));
        lemma_filter_push(span(2, below), below, divisor_of(n));
    } else {
        assert(span(2, hi) =~= Seq::<nat>::empty());
    }
}

/// The shape of a factor sequence: it starts with 1 and ends with the number,
/// it is non-descending, and for a positive number its items are exactly the
/// divisors. From 2 on nothing occurs twice.
pub proof fn lemma_factor_seq_shape(n: nat)
    ensures
        factor_seq(n).len() >= 2,
        factor_seq(n).first() == 1,
        factor_seq(n).last() == n,
        n >= 1 ==> non_descending(factor_seq(n)),
        n >= 2 ==> ascending(factor_seq(n)),
        n >= 1 ==> forall|d: nat| factor_seq(n).contains(d) <==> divides(d, n),
{
    let middle = span(2, n).filter(divisor_of(n));
    let all = factor_seq(n);
    lemma_span_filter_ascending(n, n);
    lemma_filter_members(span(2, n), divisor_of(n));
    assert(all.len() == middle.len() + 2);
    assert(all[0] == 1);
    assert(all[all.len() - 1] == n);
    assert forall|k: int| 1 <= k < all.len() - 1 implies all[k] == middle[k - 1] by {}
    if n >= 1 {
        assert forall|i: int, j: int| 0 <= i <= j < all.len() implies all[i] <= all[j] by {
            if 1 <= i && j < all.len() - 1 {
                assert(all[i] == middle[i - 1]);
                assert(all[j] == middle[j - 1]);
            } else if 1 <= i < all.len() - 1 {
                assert(all[i] == middle[i - 1]);
            } else if 1 <= j < all.len() - 1 {
                assert(all[j] == middle[j - 1]);
            }
        }
        assert forall|d: nat| all.contains(d) <==> divides(d, n) by {
            if all.contains(d) {
                let k = choose|k: int| 0 <= k < all.len() && all[k] == d;
                if 1 <= k < all.len() - 1 {
                    assert(middle[k - 1] == d);
                    assert(middle.contains(d));
                }
            }
            if divides(d, n) {
                lemma_divisor_bound(d, n);
                if d == 1 {
                    assert(all[0] == d);
                } else if d == n {
                    assert(all[all.len() - 1] == d);
                } else {
                    assert(span(2, n)[d - 2] == d);
                    assert(span(2, n).contains(d));
                    assert(middle.contains(d));
                    let k = choose|k: int| 0 <= k < middle.len() && middle[k] == d;
                    assert(all[k + 1] == d);
                }
            }
        }
    }
    if n >= 2 {
        assert forall|i: int, j: int| 0 <= i < j < all.len() implies all[i] < all[j] by {
            if 1 <= i && j < all.len() - 1 {
                assert(all[i] == middle[i - 1]);
                assert(all[j] == middle[j - 1]);
            } else if 1 <= i < all.len() - 1 {
                assert(all[i] == middle[i - 1]);
            } else if 1 <= j < all.len() - 1 {
                assert(all[j] == middle[j - 1]);
            }
        }
    }
}

/// The two smallest cases: both ends are written even where they coincide
/// or come out of order.
pub proof fn lemma_factor_seq_of_zero_and_one()
    ensures
        factor_seq(0) == seq![1nat, 0nat],
        factor_seq(1) == seq![1nat, 1nat],
{
    reveal(Seq::filter);
    assert(span(2, 0) =~= Seq::<nat>::empty());
    assert(span(2, 1) =~= Seq::<nat>::empty());
    assert(factor_seq(0) =~= seq![1nat, 0nat]);
    assert(factor_seq(1) =~= seq![1nat, 1nat]);
}

/// The common factors of any two numbers include 1.
pub proof fn lemma_common_factors_contain_one(a: nat, b: nat)
    ensures
        common(factor_seq(a), factor_seq(b)).contains(1),
{
    lemma_factor_seq_shape(a);
    lemma_factor_seq_shape(b);
    lemma_filter_members(factor_seq(a), member_of(factor_seq(b)));
    assert(factor_seq(a)[0] == 1);
    assert(factor_seq(b)[0] == 1);
    assert(factor_seq(b).contains(1));
    assert(factor_seq(a).contains(1) && member_of(factor_seq(b))(1));
}

/// For positive `a` and `b`, the highest common item of their factor
/// sequences is their greatest common divisor.
pub proof fn lemma_highest_common_is_gcd(a: nat, b: nat)
    requires
        a >= 1,
        b >= 1,
    ensures
        is_gcd(highest_common(factor_seq(a), factor_seq(b)), a, b),
{
    let fa = factor_seq(a);
    let fb = factor_seq(b);
    let shared = common(fa, fb);
    lemma_factor_seq_shape(a);
    lemma_factor_seq_shape(b);
    lemma_common_factors_contain_one(a, b);
    lemma_filter_last_is_max(fa, member_of(fb));
    let h = shared.last();
    assert(shared.len() > 0);
    assert(highest_common(fa, fb) == h);
    assert(fa.contains(h) && member_of(fb)(h));
    assert(fb.contains(h));
    assert forall|d: nat| divides(d, a) && divides(d, b) implies d <= h by {
        assert(fa.contains(d));
        assert(fb.contains(d));
        assert(member_of(fb)(d));
    }
}

/// Reduction divides both numbers by their greatest common divisor, and
/// nothing is lost: multiplying back gives the numbers again.
pub proof fn lemma_reduced_by_gcd(n: nat, d: nat, g: nat)
    requires
        n >= 1,
        d >= 1,
        is_gcd(g, n, d),
    ensures
        reduced(n, d) == (n / g, d / g),
        reduced(n, d).0 * g == n,
        reduced(n, d).1 * g == d,
        reduced(n, d).0 >= 1,
        reduced(n, d).1 >= 1,
{
    lemma_highest_common_is_gcd(n, d);
    lemma_gcd_unique(g, highest_common(factor_seq(n), factor_seq(d)), n, d);
    lemma_exact_quotient(n, g);
    lemma_exact_quotient(d, g);
}

/// Where `g` divides `n`, the quotient times `g` is `n` again.
pub proof fn lemma_exact_quotient(n: nat, g: nat)
    requires
        divides(g, n),
    ensures
        (n / g) * g == n,
        n >= 1 ==> n / g >= 1,
{
    lemma_fundamental_div_mod(n as int, g as int);
    assert((n / g) * g == g * (n / g)) by (nonlinear_arith);
    if n >= 1 && n / g == 0 {
        assert((n / g) * g == 0) by (nonlinear_arith)
            requires
                n / g == 0,
        ;
    }
}

/// What reduction gives has no common divisor but 1.
pub proof fn lemma_reduced_is_coprime(n: nat, d: nat)
    requires
        n >= 1,
        d >= 1,
    ensures
        is_gcd(1, reduced(n, d).0, reduced(n, d).1),
{
    let g = highest_common(factor_seq(n), factor_seq(d));
    lemma_highest_common_is_gcd(n, d);
    lemma_reduced_by_gcd(n, d, g);
    let p = n / g;
    let q = d / g;
    assert(p % 1 == 0 && q % 1 == 0);
    assert forall|e: nat| divides(e, p) && divides(e, q) implies e <= 1 by {
        lemma_exact_quotient(p, e);
        lemma_exact_quotient(q, e);
        lemma_multiple_divides(n, g, e, p / e, p);
        lemma_multiple_divides(d, g, e, q / e, q);
        assert(divides(e * g, n) && divides(e * g, d));
        assert(e * g <= g);
        assert(e <= 1) by (nonlinear_arith)
            requires
                e * g <= g,
                g >= 1,
        ;
    }
}

/// If `n` is `p * g` and `p` is `k * e`, then `e * g` divides `n`.
proof fn lemma_multiple_divides(n: nat, g: nat, e: nat, k: nat, p: nat)
    requires
        g >= 1,
        e >= 1,
        p * g == n,
        k * e == p,
    ensures
        divides(e * g, n),
{
    assert(n == k * (e * g)) by (nonlinear_arith)
        requires
            p * g == n,
            k * e == p,
    ;
    assert(e * g >= 1) by (nonlinear_arith)
        requires
            e >= 1,
            g >= 1,
    ;
    lemma_mod_multiples_basic(k as int, (e * g) as int);
}

/// Reducing a pair of positive numbers with no common divisor but 1 gives
/// the same pair.
pub proof fn lemma_reduced_coprime_unchanged(n: nat, d: nat)
    requires
        n >= 1,
        d >= 1,
        is_gcd(1, n, d),
    ensures
        reduced(n, d) == (n, d),
{
    lemma_reduced_by_gcd(n, d, 1);
}

/// Reduction is idempotent: reducing what reduction gave changes nothing.
pub proof fn lemma_reduced_idempotent(n: nat, d: nat)
    requires
        n >= 1,
        d >= 1,
    ensures
        reduced(reduced(n, d).0, reduced(n, d).1) == reduced(n, d),
{
    let g = highest_common(factor_seq(n), factor_seq(d));
    lemma_highest_common_is_gcd(n, d);
    lemma_reduced_by_gcd(n, d, g);
    lemma_reduced_is_coprime(n, d);
    lemma_reduced_coprime_unchanged(reduced(n, d).0, reduced(n, d).1);
}

} // verus!
