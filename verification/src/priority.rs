//! Contains the [Priority] trait, which decides where an entry stands in a
//! [PriorityQueue](crate::queue::PriorityQueue).
use core::cmp::Ordering;
use vstd::prelude::*;
use vstd::std_specs::cmp::{OrdSpec, PartialEqSpec, PartialOrdSpec};
use vstd::std_specs::convert::FromSpecImpl;

verus! {

/// Whether the outcome `outcome` of a comparison says the same as the number `order`: negative for
/// a lower priority, zero for the same one, positive for a higher one.
pub open spec fn agrees(outcome: Ordering, order: int) -> bool {
    match outcome {
        Ordering::Less => order < 0,
        Ordering::Equal => order == 0,
        Ordering::Greater => order > 0,
    }
}

/// The number that stands for an outcome of a comparison.
pub open spec fn number_of(outcome: Ordering) -> int {
    match outcome {
        Ordering::Less => -1,
        Ordering::Equal => 0,
        Ordering::Greater => 1,
    }
}

/// Decides the order in which the entries of a queue stand.
///
/// An implementation tells by [order](Priority::order) and [order_new](Priority::order_new) what
/// its two functions return, for the values that are [comparable](Priority::comparable). One that
/// says nothing of these promises nothing. Whether the orders are of use is another question, which
/// [lawful] answers.
pub trait Priority: Sized {
    /// Whether the outcome of comparing `self` with `other` is fixed by the two values. It is not
    /// where a type's own ordering promises nothing.
    open spec fn comparable(&self, other: &Self) -> bool {
        false
    }

    /// The outcome of [compare](Priority::compare) as a number: negative if `self` has the lower
    /// priority, zero if both have the same, positive if `self` has the higher one.
    open spec fn order(&self, other: &Self) -> int {
        0
    }

    /// The outcome of [compare_new](Priority::compare_new) as a number, as in
    /// [order](Priority::order).
    open spec fn order_new(&self, old: &Self) -> int {
        self.order(old)
    }

    /// Compare a (possibly new) priority to an already queued one.
    ///
    /// - `Less`: lower priority, to be placed after `other`
    /// - `Equal`: same priority, can be placed before or after `other`
    /// - `Greater`: higher priority, to be placed before `other`
    ///
    /// This must be transitive (see [lawful]).
    fn compare(&self, other: &Self) -> (outcome: Ordering)
        ensures
            self.comparable(other) ==> agrees(outcome, self.order(other)),
    ;

    /// Compare a new priority, which is in no queue, with an already queued one.
    ///
    /// A queue uses this whenever it places an entry. It need not be transitive, but must return
    /// the same as [compare](Priority::compare) wherever that isn't `Equal` (see [lawful]).
    fn compare_new(&self, old: &Self) -> (outcome: Ordering)
        ensures
            self.comparable(old) ==> agrees(outcome, self.order_new(old)),
    ;
}

/// What a priority must keep for a queue to be in order: every two values can be compared,
/// [compare](Priority::compare) is a total order up to values of the same priority, and
/// [compare_new](Priority::compare_new) differs from it only between values of the same priority.
#[verifier::opaque]
pub open spec fn lawful<P: Priority>() -> bool {
    &&& forall|a: P, b: P| #[trigger] a.comparable(&b)
    &&& forall|a: P, b: P| (#[trigger] a.order(&b) < 0 <==> b.order(&a) > 0)
    &&& forall|a: P, b: P, c: P| #[trigger]
        a.order(&b) >= 0 && #[trigger] b.order(&c) >= 0 ==> a.order(&c) >= 0
    &&& forall|a: P, b: P| a.order(&b) < 0 ==> #[trigger] a.order_new(&b) < 0
    &&& forall|a: P, b: P| a.order(&b) > 0 ==> #[trigger] a.order_new(&b) > 0
}

/// Whether a new value is compared just as a queued one is.
#[verifier::opaque]
pub open spec fn plain<P: Priority>() -> bool {
    forall|a: P, b: P| #[trigger] a.order_new(&b) == a.order(&b)
}

/// Whether a new value is placed after every queued one of the same priority.
#[verifier::opaque]
pub open spec fn newest_last<P: Priority>() -> bool {
    forall|a: P, b: P|
        #![trigger a.order_new(&b)]
        if a.order(&b) > 0 {
            a.order_new(&b) > 0
        } else {
            a.order_new(&b) < 0
        }
}

/// Whether a new value is placed before every queued one of the same priority.
#[verifier::opaque]
pub open spec fn newest_first<P: Priority>() -> bool {
    forall|a: P, b: P|
        #![trigger a.order_new(&b)]
        if a.order(&b) < 0 {
            a.order_new(&b) < 0
        } else {
            a.order_new(&b) > 0
        }
}

/// Whether a new value is placed in one and the same way among queued ones of the same priority.
pub open spec fn regular<P: Priority>() -> bool {
    lawful::<P>() && (plain::<P>() || newest_last::<P>() || newest_first::<P>())
}

/// What [lawful] says of two values.
pub proof fn lemma_lawful_pair<P: Priority>(a: P, b: P)
    requires
        lawful::<P>(),
    ensures
        a.comparable(&b),
        a.order(&b) < 0 <==> b.order(&a) > 0,
        a.order(&b) == 0 <==> b.order(&a) == 0,
        a.order(&b) < 0 ==> a.order_new(&b) < 0,
        a.order(&b) > 0 ==> a.order_new(&b) > 0,
{
    reveal(lawful);
    assert(b.order(&a) < 0 <==> a.order(&b) > 0);
}

/// What [lawful] says of three values.
pub proof fn lemma_lawful_chain<P: Priority>(a: P, b: P, c: P)
    requires
        lawful::<P>(),
        a.order(&b) >= 0,
        b.order(&c) >= 0,
    ensures
        a.order(&c) >= 0,
        a.order(&b) > 0 ==> a.order(&c) > 0,
        b.order(&c) > 0 ==> a.order(&c) > 0,
{
    reveal(lawful);
    lemma_lawful_pair(a, b);
    lemma_lawful_pair(b, c);
    lemma_lawful_pair(a, c);
    lemma_lawful_pair(c, a);
    if a.order(&c) <= 0 {
        assert(c.order(&a) >= 0);
        if a.order(&b) > 0 {
            assert(b.order(&a) >= 0);
        }
        if b.order(&c) > 0 {
            assert(c.order(&b) >= 0);
        }
    }
}

/// The outcome of `a.compare(b)` as a number.
pub(crate) fn rank<P: Priority>(a: &P, b: &P) -> (n: i8)
    ensures
        a.comparable(b) ==> (n < 0 <==> a.order(b) < 0) && (n > 0 <==> a.order(b) > 0),
{
    match a.compare(b) {
        Ordering::Less => -1,
        Ordering::Equal => 0,
        Ordering::Greater => 1,
    }
}

/// The outcome of `new.compare_new(old)` as a number.
pub(crate) fn rank_new<P: Priority>(new: &P, old: &P) -> (n: i8)
    ensures
        new.comparable(old) ==> (n < 0 <==> new.order_new(old) < 0) && (n > 0 <==> new.order_new(
            old,
        ) > 0),
{
    match new.compare_new(old) {
        Ordering::Less => -1,
        Ordering::Equal => 0,
        Ordering::Greater => 1,
    }
}

/// A value with an order of its own is a priority: the greater value has the higher priority.
impl<O: Ord> Priority for O {
    open spec fn comparable(&self, other: &Self) -> bool {
        O::obeys_cmp_spec()
    }

    open spec fn order(&self, other: &Self) -> int {
        number_of(self.cmp_spec(other))
    }

    open spec fn order_new(&self, old: &Self) -> int {
        self.order(old)
    }

    fn compare(&self, other: &Self) -> (outcome: Ordering) {
        self.cmp(other)
    }

    fn compare_new(&self, old: &Self) -> (outcome: Ordering) {
        self.compare(old)
    }
}

/// The order of a type that keeps the laws of [Ord] is lawful, and a new value is compared as a
/// queued one is.
pub proof fn law_ord<O: Ord>()
    requires
        vstd::laws_cmp::obeys_cmp::<O>(),
    ensures
        lawful::<O>(),
        plain::<O>(),
        forall|a: O, b: O|
            #![trigger a.order(&b)]
            {
                &&& a.order(&b) > 0 <==> a.cmp_spec(&b) == Ordering::Greater
                &&& a.order(&b) == 0 <==> a.cmp_spec(&b) == Ordering::Equal
                &&& a.order(&b) < 0 <==> a.cmp_spec(&b) == Ordering::Less
            },
{
    reveal(lawful);
    reveal(plain);
    reveal(vstd::laws_cmp::obeys_cmp_ord);
    reveal(vstd::laws_cmp::obeys_cmp_partial_ord);
    reveal(vstd::laws_cmp::obeys_partial_cmp_spec_properties);
    reveal(vstd::laws_eq::obeys_eq_spec_properties);
    assert forall|a: O, b: O, c: O| #[trigger] a.order(&b) >= 0 && #[trigger] b.order(&c)
        >= 0 implies a.order(&c) >= 0 by {
        if a.order(&c) < 0 {
            assert(c.partial_cmp_spec(&a) == Some(Ordering::Greater));
            if b.order(&c) > 0 {
                assert(b.partial_cmp_spec(&a) == Some(Ordering::Greater));
            } else {
                assert(b.eq_spec(&c));
                if a.order(&b) == 0 {
                    assert(a.eq_spec(&b));
                    assert(a.eq_spec(&c));
                } else {
                    assert(c.partial_cmp_spec(&b) == Some(Ordering::Greater));
                }
            }
        }
    }
}

/// A second name for a priority whose greater values come first, beside [LowestFirst].
pub type HighestFirst<O> = O;

/// Reverses the order of `O`: the lower value has the higher priority.
#[derive(Debug)]
pub struct LowestFirst<O: Ord>(O);

impl<O: Ord + Default> Default for LowestFirst<O> {
    fn default() -> (priority: Self)
        ensures
            call_ensures(O::default, (), priority.inner()),
    {
        Self(O::default())
    }
}

impl<O: Ord + Clone> Clone for LowestFirst<O> {
    fn clone(&self) -> (copy: Self)
        ensures
            call_ensures(O::clone, (&self.inner(),), copy.inner()),
    {
        Self(self.0.clone())
    }
}

impl<O: Ord + Copy> Copy for LowestFirst<O> {

}

impl<O: Ord> LowestFirst<O> {
    /// The value whose order is reversed.
    pub closed spec fn inner(&self) -> O {
        self.0
    }

    /// Gives the value whose order is reversed back.
    pub fn into_inner(self) -> (inner: O)
        ensures
            inner == self.inner(),
    {
        self.0
    }
}

impl<O: Ord> Priority for LowestFirst<O> {
    open spec fn comparable(&self, other: &Self) -> bool {
        O::obeys_cmp_spec()
    }

    open spec fn order(&self, other: &Self) -> int {
        number_of(other.inner().cmp_spec(&self.inner()))
    }

    open spec fn order_new(&self, old: &Self) -> int {
        self.order(old)
    }

    fn compare(&self, other: &Self) -> (outcome: Ordering) {
        other.0.cmp(&self.0)
    }

    fn compare_new(&self, old: &Self) -> (outcome: Ordering) {
        self.compare(old)
    }
}

impl<O: Ord> From<O> for LowestFirst<O> {
    fn from(value: O) -> (priority: Self)
        ensures
            priority.inner() == value,
    {
        Self(value)
    }
}

impl<O: Ord> FromSpecImpl<O> for LowestFirst<O> {
    open spec fn obeys_from_spec() -> bool {
        true
    }

    closed spec fn from_spec(value: O) -> Self {
        LowestFirst(value)
    }
}

/// A priority wrapper where newer entries with the same priority are placed after existing
/// entries.
#[derive(Debug)]
pub struct FIFO<P: Priority>(P);

impl<P: Priority + Default> Default for FIFO<P> {
    fn default() -> (priority: Self)
        ensures
            call_ensures(P::default, (), priority.inner()),
    {
        Self(P::default())
    }
}

impl<P: Priority + Clone> Clone for FIFO<P> {
    fn clone(&self) -> (copy: Self)
        ensures
            call_ensures(P::clone, (&self.inner(),), copy.inner()),
    {
        Self(self.0.clone())
    }
}

impl<P: Priority + Copy> Copy for FIFO<P> {

}

impl<P: Priority> FIFO<P> {
    /// The wrapped priority.
    pub closed spec fn inner(&self) -> P {
        self.0
    }

    /// Gives the wrapped priority back.
    pub fn into_inner(self) -> (inner: P)
        ensures
            inner == self.inner(),
    {
        self.0
    }
}

impl<P: Priority> Priority for FIFO<P> {
    open spec fn comparable(&self, other: &Self) -> bool {
        self.inner().comparable(&other.inner())
    }

    open spec fn order(&self, other: &Self) -> int {
        self.inner().order(&other.inner())
    }

    open spec fn order_new(&self, old: &Self) -> int {
        let order = self.inner().order_new(&old.inner());
        if order == 0 {
            -1
        } else {
            order
        }
    }

    fn compare(&self, other: &Self) -> (outcome: Ordering) {
        self.0.compare(&other.0)
    }

    fn compare_new(&self, old: &Self) -> (outcome: Ordering) {
        // The inner priority may have rules of its own for new entries. Where it has none, the
        // entry that was there first stays first.
        match self.0.compare_new(&old.0) {
            Ordering::Equal => Ordering::Less,
            outcome => outcome,
        }
    }
}

/// A priority wrapper where newer entries with the same priority are placed before existing
/// entries.
#[derive(Debug)]
pub struct LIFO<P: Priority>(P);

impl<P: Priority + Default> Default for LIFO<P> {
    fn default() -> (priority: Self)
        ensures
            call_ensures(P::default, (), priority.inner()),
    {
        Self(P::default())
    }
}

impl<P: Priority + Clone> Clone for LIFO<P> {
    fn clone(&self) -> (copy: Self)
        ensures
            call_ensures(P::clone, (&self.inner(),), copy.inner()),
    {
        Self(self.0.clone())
    }
}

impl<P: Priority + Copy> Copy for LIFO<P> {

}

impl<P: Priority> LIFO<P> {
    /// The wrapped priority.
    pub closed spec fn inner(&self) -> P {
        self.0
    }

    /// Gives the wrapped priority back.
    pub fn into_inner(self) -> (inner: P)
        ensures
            inner == self.inner(),
    {
        self.0
    }
}

impl<P: Priority> Priority for LIFO<P> {
    open spec fn comparable(&self, other: &Self) -> bool {
        self.inner().comparable(&other.inner())
    }

    open spec fn order(&self, other: &Self) -> int {
        self.inner().order(&other.inner())
    }

    open spec fn order_new(&self, old: &Self) -> int {
        let order = self.inner().order_new(&old.inner());
        if order == 0 {
            1
        } else {
            order
        }
    }

    fn compare(&self, other: &Self) -> (outcome: Ordering) {
        self.0.compare(&other.0)
    }

    fn compare_new(&self, old: &Self) -> (outcome: Ordering) {
        // The inner priority may have rules of its own for new entries. Where it has none, the
        // entry that came last goes first.
        match self.0.compare_new(&old.0) {
            Ordering::Equal => Ordering::Greater,
            outcome => outcome,
        }
    }
}

impl<P: Priority> From<P> for FIFO<P> {
    fn from(value: P) -> (priority: Self)
        ensures
            priority.inner() == value,
    {
        Self(value)
    }
}

impl<P: Priority> FromSpecImpl<P> for FIFO<P> {
    open spec fn obeys_from_spec() -> bool {
        true
    }

    closed spec fn from_spec(value: P) -> Self {
        FIFO(value)
    }
}

impl<O: Ord> From<O> for FIFO<LowestFirst<O>> {
    fn from(value: O) -> (priority: Self)
        ensures
            priority.inner().inner() == value,
    {
        Self(LowestFirst(value))
    }
}

impl<O: Ord> FromSpecImpl<O> for FIFO<LowestFirst<O>> {
    open spec fn obeys_from_spec() -> bool {
        true
    }

    closed spec fn from_spec(value: O) -> Self {
        FIFO(LowestFirst(value))
    }
}

impl<P: Priority> From<P> for LIFO<P> {
    fn from(value: P) -> (priority: Self)
        ensures
            priority.inner() == value,
    {
        Self(value)
    }
}

impl<P: Priority> FromSpecImpl<P> for LIFO<P> {
    open spec fn obeys_from_spec() -> bool {
        true
    }

    closed spec fn from_spec(value: P) -> Self {
        LIFO(value)
    }
}

impl<O: Ord> From<O> for LIFO<LowestFirst<O>> {
    fn from(value: O) -> (priority: Self)
        ensures
            priority.inner().inner() == value,
    {
        Self(LowestFirst(value))
    }
}

impl<O: Ord> FromSpecImpl<O> for LIFO<LowestFirst<O>> {
    open spec fn obeys_from_spec() -> bool {
        true
    }

    closed spec fn from_spec(value: O) -> Self {
        LIFO(LowestFirst(value))
    }
}

/// Reversing a lawful order gives a lawful one, in which whatever came first comes last.
pub proof fn law_lowest_first<O: Ord>()
    requires
        vstd::laws_cmp::obeys_cmp::<O>(),
    ensures
        lawful::<LowestFirst<O>>(),
        plain::<LowestFirst<O>>(),
        forall|a: LowestFirst<O>, b: LowestFirst<O>| #[trigger]
            a.order(&b) == b.inner().order(&a.inner()),
        forall|a: LowestFirst<O>, b: LowestFirst<O>|
            #![trigger a.order(&b)]
            {
                &&& a.order(&b) > 0 <==> a.inner().cmp_spec(&b.inner()) == Ordering::Less
                &&& a.order(&b) == 0 <==> a.inner().cmp_spec(&b.inner()) == Ordering::Equal
            },
{
    reveal(lawful);
    reveal(plain);
    reveal(vstd::laws_cmp::obeys_cmp_ord);
    law_ord::<O>();
    assert forall|a: LowestFirst<O>, b: LowestFirst<O>, c: LowestFirst<O>|
        #[trigger] a.order(&b) >= 0 && #[trigger] b.order(&c) >= 0 implies a.order(&c) >= 0 by {
        lemma_lawful_chain(c.inner(), b.inner(), a.inner());
    }
    assert forall|a: LowestFirst<O>, b: LowestFirst<O>| #[trigger]
        a.order(&b) < 0 <==> b.order(&a) > 0 by {
        lemma_lawful_pair(a.inner(), b.inner());
        lemma_lawful_pair(b.inner(), a.inner());
    }
}

/// Wrapping a lawful priority in [FIFO] leaves the order of queued entries as it was and stays
/// lawful. Where the wrapped priority has no rules of its own for new entries, a new entry comes
/// after those of the same priority.
pub proof fn law_fifo<P: Priority>()
    requires
        lawful::<P>(),
    ensures
        lawful::<FIFO<P>>(),
        forall|a: FIFO<P>, b: FIFO<P>| #[trigger] a.order(&b) == a.inner().order(&b.inner()),
        forall|a: FIFO<P>, b: FIFO<P>|
            #![trigger a.order_new(&b)]
            if a.inner().order_new(&b.inner()) == 0 {
                a.order_new(&b) < 0
            } else {
                a.order_new(&b) == a.inner().order_new(&b.inner())
            },
        plain::<P>() ==> newest_last::<FIFO<P>>(),
{
    reveal(lawful);
    reveal(plain);
    reveal(newest_last);
    assert forall|a: FIFO<P>, b: FIFO<P>, c: FIFO<P>| #[trigger] a.order(&b) >= 0 && #[trigger]
        b.order(&c) >= 0 implies a.order(&c) >= 0 by {
        lemma_lawful_chain(a.inner(), b.inner(), c.inner());
    }
}

/// Wrapping a lawful priority in [LIFO] leaves the order of queued entries as it was and stays
/// lawful. Where the wrapped priority has no rules of its own for new entries, a new entry comes
/// before those of the same priority.
pub proof fn law_lifo<P: Priority>()
    requires
        lawful::<P>(),
    ensures
        lawful::<LIFO<P>>(),
        forall|a: LIFO<P>, b: LIFO<P>| #[trigger] a.order(&b) == a.inner().order(&b.inner()),
        forall|a: LIFO<P>, b: LIFO<P>|
            #![trigger a.order_new(&b)]
            if a.inner().order_new(&b.inner()) == 0 {
                a.order_new(&b) > 0
            } else {
                a.order_new(&b) == a.inner().order_new(&b.inner())
            },
        plain::<P>() ==> newest_first::<LIFO<P>>(),
{
    reveal(lawful);
    reveal(plain);
    reveal(newest_first);
    assert forall|a: LIFO<P>, b: LIFO<P>, c: LIFO<P>| #[trigger] a.order(&b) >= 0 && #[trigger]
        b.order(&c) >= 0 implies a.order(&c) >= 0 by {
        lemma_lawful_chain(a.inner(), b.inner(), c.inner());
    }
}

} // verus!
