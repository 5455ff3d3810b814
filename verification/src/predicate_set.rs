//! `PredicateSet`: a set given by a membership rule instead of a list of
//! elements.
//!
//! A set can be seen extensionally (list the members) or intensionally (give
//! the rule that decides who is a member). `PredicateSet` is the second view:
//! `x ∈ { y | P(y) } ⟺ P(x)`. Sets of vectors such as spans and solution sets
//! are infinite and their elements cannot be hashed, so membership is computed
//! rather than looked up.
//!
//! The price: one can ask whether `x` is a member (`contains`), but not list
//! the members, count them, or decide equality of two sets by enumeration.
//!
//! Each set carries its rule as a value of a type that implements [`Rule`];
//! the set operations build a new rule out of shared (`Rc`) handles to the
//! rules of their operands, so a set can be used any number of times. The
//! mathematical meaning of a set is its view, a `Set<T>`.

use std::marker::PhantomData;
use std::rc::Rc;

use vstd::prelude::*;

verus! {

/// A membership rule over values of `T`.
pub trait Rule<T> {
    /// Whether the rule accepts `x`.
    spec fn admits(&self, x: T) -> bool;

    /// Whether `r` is an answer that evaluating the rule on `x` can give.
    spec fn answers(&self, x: T, r: bool) -> bool;

    /// Whether the rule can be evaluated on every value and always gives the
    /// same answer for the same value.
    spec fn decidable(&self) -> bool;

    /// Evaluates the rule on `x`.
    fn test(&self, x: &T) -> (r: bool)
        requires
            self.decidable(),
        ensures
            r == self.admits(*x),
            self.answers(*x, r),
    ;
}

/// A rule given by a closure: `x` is accepted when `f(x)` returns `true`.
pub struct FnRule<F> {
    f: F,
}

impl<T, F: Fn(&T) -> bool> Rule<T> for FnRule<F> {
    closed spec fn admits(&self, x: T) -> bool {
        call_ensures(self.f, (&x,), true)
    }

    closed spec fn answers(&self, x: T, r: bool) -> bool {
        call_ensures(self.f, (&x,), r)
    }

    closed spec fn decidable(&self) -> bool {
        &&& forall|x: T| #[trigger] call_requires(self.f, (&x,))
        &&& forall|x: T|
            !(#[trigger] call_ensures(self.f, (&x,), true) && call_ensures(self.f, (&x,), false))
    }

    fn test(&self, x: &T) -> (r: bool) {
        (self.f)(x)
    }
}

/// The rule that accepts everything (`true`) or nothing (`false`).
pub struct Constant {
    value: bool,
}

impl<T> Rule<T> for Constant {
    closed spec fn admits(&self, x: T) -> bool {
        self.value
    }

    closed spec fn answers(&self, x: T, r: bool) -> bool {
        r == self.value
    }

    closed spec fn decidable(&self) -> bool {
        true
    }

    fn test(&self, x: &T) -> (r: bool) {
        self.value
    }
}

/// The rule of a union: accepted by the left rule or by the right rule.
pub struct Union<A, B> {
    left: Rc<A>,
    right: Rc<B>,
}

impl<T, A: Rule<T>, B: Rule<T>> Rule<T> for Union<A, B> {
    closed spec fn admits(&self, x: T) -> bool {
        (*self.left).admits(x) || (*self.right).admits(x)
    }

    closed spec fn answers(&self, x: T, r: bool) -> bool {
        ||| (*self.left).answers(x, true) && r
        ||| (*self.left).answers(x, false) && (*self.right).answers(x, r)
    }

    closed spec fn decidable(&self) -> bool {
        (*self.left).decidable() && (*self.right).decidable()
    }

    fn test(&self, x: &T) -> (r: bool) {
        self.left.test(x) || self.right.test(x)
    }
}

/// The rule of an intersection: accepted by both rules.
pub struct Intersection<A, B> {
    left: Rc<A>,
    right: Rc<B>,
}

impl<T, A: Rule<T>, B: Rule<T>> Rule<T> for Intersection<A, B> {
    closed spec fn admits(&self, x: T) -> bool {
        (*self.left).admits(x) && (*self.right).admits(x)
    }

    closed spec fn answers(&self, x: T, r: bool) -> bool {
        ||| (*self.left).answers(x, false) && !r
        ||| (*self.left).answers(x, true) && (*self.right).answers(x, r)
    }

    closed spec fn decidable(&self) -> bool {
        (*self.left).decidable() && (*self.right).decidable()
    }

    fn test(&self, x: &T) -> (r: bool) {
        self.left.test(x) && self.right.test(x)
    }
}

/// The rule of a complement: accepted exactly when the inner rule rejects.
pub struct Complement<A> {
    inner: Rc<A>,
}

impl<T, A: Rule<T>> Rule<T> for Complement<A> {
    closed spec fn admits(&self, x: T) -> bool {
        !(*self.inner).admits(x)
    }

    closed spec fn answers(&self, x: T, r: bool) -> bool {
        (*self.inner).answers(x, !r)
    }

    closed spec fn decidable(&self) -> bool {
        (*self.inner).decidable()
    }

    fn test(&self, x: &T) -> (r: bool) {
        !self.inner.test(x)
    }
}

/// A second handle to the same rule.
///
/// Trusted: calls `std::rc::Rc::clone`, which the standard library documents
/// as making another pointer to the same allocation; the contract states that
/// the new handle denotes the same value.
#[verifier::external_body]
fn share<A>(rule: &Rc<A>) -> (r: Rc<A>)
    ensures
        r == *rule,
{
    Rc::clone(rule)
}

/// The set `{ x | rule accepts x }`.
///
/// The type of the rule is the second parameter; the sets built by
/// [`empty`](PredicateSet::empty) and [`universal`](PredicateSet::universal)
/// use the default, [`Constant`].
pub struct PredicateSet<T, R: Rule<T> = Constant> {
    rule: Rc<R>,
    element: PhantomData<T>,
}

impl<T, R: Rule<T>> PredicateSet<T, R> {
    /// A set is well formed when its rule can always be evaluated.
    #[verifier::type_invariant]
    spec fn well_formed(self) -> bool {
        (*self.rule).decidable()
    }

    /// The members of the set.
    pub closed spec fn members(&self) -> Set<T> {
        Set::new(|x: T| (*self.rule).admits(x))
    }

    /// Whether `r` is an answer that applying the membership rule to `x`
    /// can give. For a set built by [`new`](PredicateSet::new) these are the
    /// results the predicate can return on `x`; the set operations combine
    /// the answers of their operands as `||`, `&&` and `!` do.
    pub closed spec fn answers(&self, x: T, r: bool) -> bool {
        (*self.rule).answers(x, r)
    }

    /// Is `x` a member? This applies the membership rule to `x`.
    pub fn contains(&self, x: &T) -> (r: bool)
        ensures
            r == self@.contains(*x),
            self.answers(*x, r),
    {
        proof {
            use_type_invariant(self);
        }
        self.rule.test(x)
    }

    /// The union `self ∪ other = { x | x ∈ self or x ∈ other }`.
    pub fn union<S: Rule<T>>(&self, other: &PredicateSet<T, S>) -> (r: PredicateSet<T, Union<R, S>>)
        ensures
            r@ == self@.union(other@),
            forall|x: T, b: bool| #[trigger]
                r.answers(x, b) == ((self.answers(x, true) && b) || (self.answers(x, false)
                    && other.answers(x, b))),
    {
        proof {
            use_type_invariant(self);
            use_type_invariant(other);
        }
        let rule = Union { left: share(&self.rule), right: share(&other.rule) };
        let r = PredicateSet { rule: Rc::new(rule), element: PhantomData };
        assert(r@ =~= self@.union(other@));
        r
    }

    /// The intersection `self ∩ other = { x | x ∈ self and x ∈ other }`.
    pub fn intersection<S: Rule<T>>(&self, other: &PredicateSet<T, S>) -> (r: PredicateSet<
        T,
        Intersection<R, S>,
    >)
        ensures
            r@ == self@.intersect(other@),
            forall|x: T, b: bool| #[trigger]
                r.answers(x, b) == ((self.answers(x, false) && !b) || (self.answers(x, true)
                    && other.answers(x, b))),
    {
        proof {
            use_type_invariant(self);
            use_type_invariant(other);
        }
        let rule = Intersection { left: share(&self.rule), right: share(&other.rule) };
        let r = PredicateSet { rule: Rc::new(rule), element: PhantomData };
        assert(r@ =~= self@.intersect(other@));
        r
    }

    /// The complement `selfᶜ = { x | x ∉ self }`, taken in the whole type `T`:
    /// no universe needs to be given.
    pub fn complement(&self) -> (r: PredicateSet<T, Complement<R>>)
        ensures
            r@ == self@.complement(),
            forall|x: T, b: bool| #[trigger] r.answers(x, b) == self.answers(x, !b),
    {
        proof {
            use_type_invariant(self);
        }
        let rule = Complement { inner: share(&self.rule) };
        let r = PredicateSet { rule: Rc::new(rule), element: PhantomData };
        assert(r@ =~= self@.complement());
        r
    }

    /// The difference `self \ other = { x | x ∈ self and x ∉ other }`, built
    /// as `self ∩ otherᶜ` from the operations above.
    pub fn difference<S: Rule<T>>(&self, other: &PredicateSet<T, S>) -> (r: PredicateSet<
        T,
        Intersection<R, Complement<S>>,
    >)
        ensures
            r@ == self@.difference(other@),
            forall|x: T, b: bool| #[trigger]
                r.answers(x, b) == ((self.answers(x, false) && !b) || (self.answers(x, true)
                    && other.answers(x, !b))),
    {
        let r = self.intersection(&other.complement());
        assert(r@ =~= self@.difference(other@));
        r
    }
}

impl<T, R: Rule<T>> View for PredicateSet<T, R> {
    type V = Set<T>;

    open spec fn view(&self) -> Set<T> {
        self.members()
    }
}

impl<T, F: Fn(&T) -> bool> PredicateSet<T, FnRule<F>> {
    /// The set `{ x | predicate(x) }`.
    ///
    /// The predicate must be a function: defined on every value and giving
    /// one answer per value.
    pub fn new(predicate: F) -> (r: PredicateSet<T, FnRule<F>>)
        requires
            forall|x: T| #[trigger] call_requires(predicate, (&x,)),
            forall|x: T|
                !(#[trigger] call_ensures(predicate, (&x,), true) && call_ensures(
                    predicate,
                    (&x,),
                    false,
                )),
        ensures
            forall|x: T| r@.contains(x) == call_ensures(predicate, (&x,), true),
            forall|x: T, b: bool| #[trigger] r.answers(x, b) == call_ensures(predicate, (&x,), b),
    {
        let rule = FnRule { f: predicate };
        PredicateSet { rule: Rc::new(rule), element: PhantomData }
    }
}

impl<T, R: Rule<T>> PredicateSet<T, R> {
    /// The first subspace axiom: is the zero vector a member? A set of
    /// vectors is only a rule and does not know the space it lives in, so
    /// the caller gives the zero vector of that space.
    pub fn contains_zero(&self, zero: &T) -> (r: bool)
        ensures
            r == self@.contains(*zero),
            self.answers(*zero, r),
    {
        self.contains(zero)
    }

    /// The second and third subspace axioms at one sample: if `u` and `v` are
    /// members, are `u + v` and `c·u` members too? `sum` is `u + v` (`None`
    /// when the sum is not defined, as for vectors of different lengths) and
    /// `scaled` is `c·u`.
    ///
    /// When `u` or `v` is not a member the sample says nothing and the answer
    /// is `true` (an implication with a false premise); an undefined sum of
    /// two members gives `false`. Membership is tested in the order `u`, `v`,
    /// `u + v`, `c·u`, each only when the answers so far leave the result
    /// open.
    pub fn closed_at(&self, u: &T, v: &T, sum: Option<&T>, scaled: &T) -> (r: bool)
        ensures
            r == (!(self@.contains(*u) && self@.contains(*v)) || (sum is Some && self@.contains(
                *sum->0,
            ) && self@.contains(*scaled))),
            ({
                ||| self.answers(*u, false) && r
                ||| self.answers(*u, true) && self.answers(*v, false) && r
                ||| self.answers(*u, true) && self.answers(*v, true) && sum is None && !r
                ||| self.answers(*u, true) && self.answers(*v, true) && sum is Some
                    && self.answers(*sum->0, false) && !r
                ||| self.answers(*u, true) && self.answers(*v, true) && sum is Some
                    && self.answers(*sum->0, true) && self.answers(*scaled, r)
            }),
    {
        if !(self.contains(u) && self.contains(v)) {
            return true;
        }
        match sum {
            Some(s) => self.contains(s) && self.contains(scaled),
            None => false,
        }
    }
}

impl<T, R: Rule<T>> Clone for PredicateSet<T, R> {
    /// Another handle to the same rule: the same set, giving the same answers.
    fn clone(&self) -> (r: Self)
        ensures
            r@ == self@,
            forall|x: T, b: bool| #[trigger] r.answers(x, b) == self.answers(x, b),
    {
        proof {
            use_type_invariant(self);
        }
        PredicateSet { rule: share(&self.rule), element: PhantomData }
    }
}

impl<T> PredicateSet<T, Constant> {
    /// The empty set `∅ = { x | false }`.
    pub fn empty() -> (r: PredicateSet<T, Constant>)
        ensures
            r@ == Set::<T>::empty(),
            forall|x: T, b: bool| #[trigger] r.answers(x, b) == !b,
    {
        let r = PredicateSet { rule: Rc::new(Constant { value: false }), element: PhantomData };
        assert(r@ =~= Set::<T>::empty());
        r
    }

    /// The universal set `U = { x | true }`: every value of `T`.
    pub fn universal() -> (r: PredicateSet<T, Constant>)
        ensures
            r@ == Set::<T>::full(),
            forall|x: T, b: bool| #[trigger] r.answers(x, b) == b,
    {
        let r = PredicateSet { rule: Rc::new(Constant { value: true }), element: PhantomData };
        assert(r@ =~= Set::<T>::full());
        r
    }
}

/// Excluded middle and contradiction: a set and its complement together
/// cover everything (`A ∪ Aᶜ = U`) and share nothing (`A ∩ Aᶜ = ∅`).
pub proof fn lemma_complement_partition<T, R: Rule<T>>(a: PredicateSet<T, R>)
    ensures
        a@.union(a@.complement()) == Set::<T>::full(),
        a@.intersect(a@.complement()) == Set::<T>::empty(),
{
    assert(a@.union(a@.complement()) =~= Set::<T>::full());
    assert(a@.intersect(a@.complement()) =~= Set::<T>::empty());
}

/// De Morgan's laws: `(A ∪ B)ᶜ = Aᶜ ∩ Bᶜ` and `(A ∩ B)ᶜ = Aᶜ ∪ Bᶜ`.
pub proof fn lemma_de_morgan<T, R: Rule<T>, S: Rule<T>>(a: PredicateSet<T, R>, b: PredicateSet<T, S>)
    ensures
        a@.union(b@).complement() == a@.complement().intersect(b@.complement()),
        a@.intersect(b@).complement() == a@.complement().union(b@.complement()),
{
    assert(a@.union(b@).complement() =~= a@.complement().intersect(b@.complement()));
    assert(a@.intersect(b@).complement() =~= a@.complement().union(b@.complement()));
}

/// The difference is the intersection with the complement:
/// `A \ B = A ∩ Bᶜ`.
pub proof fn lemma_difference_as_intersection<T, R: Rule<T>, S: Rule<T>>(
    a: PredicateSet<T, R>,
    b: PredicateSet<T, S>,
)
    ensures
        a@.difference(b@) == a@.intersect(b@.complement()),
{
    assert(a@.difference(b@) =~= a@.intersect(b@.complement()));
}

} // verus!
