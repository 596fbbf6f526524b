//! Factor lists, their intersection, and ratios in lowest terms.

use crate::decimal::{decimal, decimal_text, joined, list_text, pair_text};
use crate::divisors::{
    ascending, common, divides, divisor_of, factor_seq, highest_common, is_gcd,
    lemma_factor_seq_of_zero_and_one, lemma_factor_seq_shape, lemma_filter_push,
    lemma_reduced_by_gcd, lemma_reduced_is_coprime, member_of, reduced, span,
};
use vstd::prelude::*;
use vstd::std_specs::convert::FromSpecImpl;
use vstd::string::StringExecFns;

verus! {

/// The items of a `u32` sequence as naturals.
pub open spec fn as_nats(items: Seq<u32>) -> Seq<nat> {
    Seq::new(items.len(), |i: int| items[i] as nat)
}

/// Appending an item and then reading as naturals is reading as naturals
/// and then appending.
pub proof fn lemma_as_nats_push(items: Seq<u32>, x: u32)
    ensures
        as_nats(items.push(x)) == as_nats(items).push(x as nat),
{
    assert(as_nats(items.push(x)) =~= as_nats(items).push(x as nat));
}

/// Represents a list of factors of a given number.
#[derive(Debug, Clone)]
pub struct Factors(pub Vec<u32>);

impl View for Factors {
    type V = Seq<nat>;

    open spec fn view(&self) -> Seq<nat> {
        as_nats(self.0@)
    }
}

/// Returns the list of factors of `n`: 1 first, then every divisor strictly
/// between 1 and `n` in ascending order, then `n` itself.
pub fn factors_of(n: u32) -> (factors: Factors)
    ensures
        factors@ == factor_seq(n as nat),
        factors@.len() >= 2,
        factors@.first() == 1,
        factors@.last() == n,
        n >= 1 ==> forall|d: nat| factors@.contains(d) <==> divides(d, n as nat),
        n >= 2 ==> ascending(factors@),
        n == 1 ==> factors@ == seq![1nat, 1nat],
{
    let mut factors: Vec<u32> = Vec::new();
    factors.push(1);
    assert(as_nats(factors@) =~= seq![1nat] + span(2, 2).filter(divisor_of(n as nat))) by {
        reveal(Seq::filter);
        assert(span(2, 2) =~= Seq::<nat>::empty());
    }
    let mut i: u32 = 2;
    while i < n
        invariant
            2 <= i,
            n >= 2 ==> i <= n,
            n < 2 ==> i == 2,
            as_nats(factors@) == seq![1nat] + span(2, i as nat).filter(divisor_of(n as nat)),
        decreases n - i,
    {
        let ghost found = span(2, i as nat).filter(divisor_of(n as nat));
        proof {
            assert(span(2, (i + 1) as nat) =~= span(2, i as nat).push(i as nat));
            lemma_filter_push(span(2, i as nat), i as nat, divisor_of(n as nat));
            assert(divisor_of(n as nat)(i as nat) == (n % i == 0));
        }
        if n % i == 0 {
            proof {
                lemma_as_nats_push(factors@, i);
            }
            factors.push(i);
            assert(as_nats(factors@) =~= seq![1nat] + found.push(i as nat));
        }
        i = i + 1;
    }
    proof {
        lemma_as_nats_push(factors@, n);
    }
    factors.push(n);
    proof {
        assert(span(2, i as nat) =~= span(2, n as nat));
        assert(as_nats(factors@) =~= factor_seq(n as nat));
        lemma_factor_seq_shape(n as nat);
        lemma_factor_seq_of_zero_and_one();
    }
    Factors(factors)
}

/// Whether `needle` occurs among `items`.
fn occurs_in(items: &Vec<u32>, needle: u32) -> (found: bool)
    ensures
        found == as_nats(items@).contains(needle as nat),
{
    let mut i: usize = 0;
    while i < items.len()
        invariant
            i <= items.len(),
            forall|k: int| 0 <= k < i ==> items@[k] != needle,
        decreases items.len() - i,
    {
        if items[i] == needle {
            assert(as_nats(items@)[i as int] == needle as nat);
            return true;
        }
        i = i + 1;
    }
    assert forall|k: int| 0 <= k < as_nats(items@).len() implies as_nats(items@)[k]
        != needle as nat by {
        assert(items@[k] != needle);
    }
    false
}

/// Returns the factors of `a` that also occur in `b`, in the order and with
/// the multiplicity they have in `a`.
pub fn common_factors(a: Factors, b: Factors) -> (shared: Factors)
    ensures
        shared@ == common(a@, b@),
{
    let mut shared: Vec<u32> = Vec::new();
    let mut i: usize = 0;
    assert(as_nats(shared@) =~= a@.take(0).filter(member_of(b@))) by {
        reveal(Seq::filter);
    }
    while i < a.0.len()
        invariant
            i <= a.0.len(),
            as_nats(shared@) == a@.take(i as int).filter(member_of(b@)),
        decreases a.0.len() - i,
    {
        let factor = a.0[i];
        proof {
            assert(a@.take(i + 1) =~= a@.take(i as int).push(factor as nat));
            lemma_filter_push(a@.take(i as int), factor as nat, member_of(b@));
            lemma_as_nats_push(shared@, factor);
            assert(member_of(b@)(factor as nat) == b@.contains(factor as nat));
        }
        if occurs_in(&b.0, factor) {
            shared.push(factor);
        }
        i = i + 1;
    }
    assert(a@.take(i as int) =~= a@);
    Factors(shared)
}

/// Returns the last of the common factors of `a` and `b`, which is the
/// largest where `a` is in ascending order, or 0 when they share none.
pub fn highest_common_factor(a: Factors, b: Factors) -> (highest: u32)
    ensures
        highest == highest_common(a@, b@),
{
    let shared = common_factors(a, b);
    let count = shared.0.len();
    if count == 0 {
        0
    } else {
        shared.0[count - 1]
    }
}

/// Hands the factors out one by one, in the order of the list.
impl IntoIterator for Factors {
    type Item = u32;

    type IntoIter = std::vec::IntoIter<u32>;

    fn into_iter(self) -> (iter: std::vec::IntoIter<u32>)
        ensures
            iter == vstd::std_specs::vec::spec_into_iter(self.0),
            vstd::std_specs::iter::IteratorSpec::remaining(&iter) == self.0@,
    {
        self.0.into_iter()
    }
}

impl Factors {
    /// The list as text: the factors in decimal, separated by a comma and a
    /// space, inside square brackets.
    pub fn to_string(&self) -> (text: String)
        ensures
            text@ == list_text(self@),
    {
        let mut text = String::from_str("[");
        proof {
            reveal_strlit("[");
            reveal_strlit(", ");
            reveal_strlit("]");
        }
        let mut i: usize = 0;
        assert(text@ =~= seq!['['] + joined(self@.take(0)));
        while i < self.0.len()
            invariant
                i <= self.0.len(),
                text@ == seq!['['] + joined(self@.take(i as int)),
                ", "@ == seq![',', ' '],
            decreases self.0.len() - i,
        {
            let ghost head = self@.take(i as int);
            let ghost next = self@.take(i + 1);
            assert(next.drop_last() =~= head);
            assert(next.last() == self.0@[i as int] as nat);
            if i > 0 {
                text.append(", ");
            }
            let item = decimal_text(self.0[i]);
            text.append(item.as_str());
            assert(text@ =~= seq!['['] + joined(next));
            i = i + 1;
        }
        assert(self@.take(i as int) =~= self@);
        text.append("]");
        assert(text@ =~= list_text(self@));
        text
    }
}

/// The first term of a ratio.
#[derive(Debug, Clone, Copy)]
struct Numerator(u32);

impl From<u32> for Numerator {
    fn from(value: u32) -> (numerator: Self) {
        Numerator(value)
    }
}

impl FromSpecImpl<u32> for Numerator {
    open spec fn obeys_from_spec() -> bool {
        true
    }

    closed spec fn from_spec(value: u32) -> Self {
        Numerator(value)
    }
}

impl Numerator {
    /// The term in decimal.
    fn to_string(&self) -> (text: String)
        ensures
            text@ == decimal(self.0 as nat),
    {
        decimal_text(self.0)
    }
}

/// The second term of a ratio.
#[derive(Debug, Clone, Copy)]
struct Denominator(u32);

impl From<u32> for Denominator {
    fn from(value: u32) -> (denominator: Self) {
        Denominator(value)
    }
}

impl FromSpecImpl<u32> for Denominator {
    open spec fn obeys_from_spec() -> bool {
        true
    }

    closed spec fn from_spec(value: u32) -> Self {
        Denominator(value)
    }
}

impl Denominator {
    /// The term in decimal.
    fn to_string(&self) -> (text: String)
        ensures
            text@ == decimal(self.0 as nat),
    {
        decimal_text(self.0)
    }
}

/// A ratio of two numbers in lowest terms.
#[derive(Debug, Clone, Copy)]
pub struct Ratio {
    numerator: Numerator,
    denominator: Denominator,
}

impl View for Ratio {
    type V = (nat, nat);

    closed spec fn view(&self) -> (nat, nat) {
        (self.numerator.0 as nat, self.denominator.0 as nat)
    }
}

impl From<(u32, u32)> for Ratio {
    /// Reduces the pair `(numerator, denominator)`: both are divided by the
    /// highest common factor of their factor lists.
    fn from(pair: (u32, u32)) -> (ratio: Self)
        ensures
            ratio@ == reduced(pair.0 as nat, pair.1 as nat),
            pair.0 >= 1 && pair.1 >= 1 ==> is_gcd(1, ratio@.0, ratio@.1),
            pair.0 >= 1 && pair.1 >= 1 ==> forall|g: nat| #[trigger]
                is_gcd(g, pair.0 as nat, pair.1 as nat) ==> ratio@ == (
                    pair.0 as nat / g,
                    pair.1 as nat / g,
                ),
    {
        let (numerator, denominator) = pair;
        proof {
            if numerator >= 1 && denominator >= 1 {
                lemma_reduced_is_coprime(numerator as nat, denominator as nat);
                assert forall|g: nat| #[trigger]
                    is_gcd(g, numerator as nat, denominator as nat) implies reduced(
                    numerator as nat,
                    denominator as nat,
                ) == (numerator as nat / g, denominator as nat / g) by {
                    lemma_reduced_by_gcd(numerator as nat, denominator as nat, g);
                }
            }
        }
        let hcf = highest_common_factor(factors_of(numerator), factors_of(denominator));
        if hcf == 0 {
            Ratio { numerator: Numerator::from(0), denominator: Denominator::from(0) }
        } else {
            Ratio {
                numerator: Numerator::from(numerator / hcf),
                denominator: Denominator::from(denominator / hcf),
            }
        }
    }
}

impl FromSpecImpl<(u32, u32)> for Ratio {
    open spec fn obeys_from_spec() -> bool {
        true
    }

    closed spec fn from_spec(pair: (u32, u32)) -> Self {
        let terms = reduced(pair.0 as nat, pair.1 as nat);
        Ratio { numerator: Numerator(terms.0 as u32), denominator: Denominator(terms.1 as u32) }
    }
}

impl Ratio {
    /// The ratio as text: `numerator:denominator`.
    pub fn to_string(&self) -> (text: String)
        ensures
            text@ == pair_text(self@.0, self@.1),
    {
        let mut text = self.numerator.to_string();
        proof {
            reveal_strlit(":");
        }
        text.append(":");
        let second = self.denominator.to_string();
        text.append(second.as_str());
        assert(text@ =~= pair_text(self@.0, self@.1));
        text
    }
}

} // verus!
