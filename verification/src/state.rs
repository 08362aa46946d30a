//! The abstract state at one program point, the summaries inferred for user
//! functions, and the join of two states.
use vstd::prelude::*;
use crate::text::{copy_text, text_eq, text_lt};
use crate::interval::{IntInterval, I32_MAX, I32_MIN, sat_add, sat_mul, clamp64};
use crate::facts::{PairSet, TextMap, TextSet};

verus! {

/// An affine expression's atoms with their coefficients, sorted by atom and
/// without zero coefficients; the constant term is kept apart.
pub type AffineTerms = Vec<(Vec<char>, i64)>;

/// Two term lists are the same.
pub fn terms_eq(a: &AffineTerms, b: &AffineTerms) -> (r: bool)
    ensures
        r == (a@.len() == b@.len() && forall|i: int|
            0 <= i < a@.len() ==> (#[trigger] a@[i]).0@ == b@[i].0@ && a@[i].1 == b@[i].1),
{
    if a.len() != b.len() {
        return false;
    }
    let mut i: usize = 0;
    while i < a.len()
        invariant
            i <= a.len(),
            a.len() == b.len(),
            forall|j: int| 0 <= j < i ==> (#[trigger] a@[j]).0@ == b@[j].0@ && a@[j].1 == b@[j].1,
        decreases a.len() - i,
    {
        if !text_eq(&a[i].0, &b[i].0) || a[i].1 != b[i].1 {
            return false;
        }
        i += 1;
    }
    true
}

/// A copy of a term list.
pub fn copy_terms(a: &AffineTerms) -> (r: AffineTerms)
    ensures
        r@.len() == a@.len(),
        forall|i: int| 0 <= i < a@.len() ==> (#[trigger] r@[i]).0@ == a@[i].0@ && r@[i].1 == a@[i].1,
{
    let mut out: AffineTerms = Vec::new();
    let mut i: usize = 0;
    while i < a.len()
        invariant
            i <= a.len(),
            out@.len() == i,
            forall|j: int| 0 <= j < i ==> (#[trigger] out@[j]).0@ == a@[j].0@ && out@[j].1 == a@[j].1,
        decreases a.len() - i,
    {
        out.push((copy_text(&a[i].0), a[i].1));
        i += 1;
    }
    out
}

/// Two term lists are the same: the same atoms with the same coefficients.
pub open spec fn same_terms(a: AffineTerms, b: AffineTerms) -> bool {
    a@.len() == b@.len() && forall|i: int|
        0 <= i < a@.len() ==> (#[trigger] a@[i]).0@ == b@[i].0@ && a@[i].1 == b@[i].1
}

/// `i` is the first entry of `e` for the term list `t`.
pub open spec fn bound_at(e: Seq<(AffineTerms, i64)>, t: AffineTerms, i: int) -> bool {
    &&& 0 <= i < e.len()
    &&& same_terms(e[i].0, t)
    &&& forall|j: int| 0 <= j < i ==> !same_terms(#[trigger] e[j].0, t)
}

/// No entry of `e` is for `t`.
pub open spec fn unbounded(e: Seq<(AffineTerms, i64)>, t: AffineTerms) -> bool {
    forall|j: int| 0 <= j < e.len() ==> !same_terms(#[trigger] e[j].0, t)
}

/// Either no entry is for `t`, or a first one is.
pub proof fn lemma_first_bound(e: Seq<(AffineTerms, i64)>, t: AffineTerms)
    ensures
        unbounded(e, t) || exists|i: int| bound_at(e, t, i),
    decreases e.len(),
{
    if e.len() > 0 {
        let d = e.drop_last();
        lemma_first_bound(d, t);
        if unbounded(d, t) {
            if !unbounded(e, t) {
                assert forall|j: int| 0 <= j < e.len() - 1 implies !same_terms(#[trigger] e[j].0, t) by {
                    assert(d[j] == e[j]);
                    assert(!same_terms(d[j].0, t));
                }
                let k = choose|k: int| 0 <= k < e.len() && same_terms(#[trigger] e[k].0, t);
                if k < e.len() - 1 {
                    assert(d[k] == e[k]);
                    assert(!same_terms(d[k].0, t));
                }
                assert(bound_at(e, t, e.len() - 1));
            }
        } else {
            let i = choose|i: int| bound_at(d, t, i);
            assert forall|j: int| 0 <= j < i implies !same_terms(#[trigger] e[j].0, t) by {
                assert(d[j] == e[j]);
                assert(!same_terms(d[j].0, t));
            }
            assert(d[i] == e[i]);
            assert(bound_at(e, t, i));
        }
    }
}

/// The bound `e` records for `t`.
pub open spec fn bound_of(e: Seq<(AffineTerms, i64)>, t: AffineTerms) -> Option<i64> {
    if exists|i: int| bound_at(e, t, i) {
        Some(e[choose|i: int| bound_at(e, t, i)].1)
    } else {
        None
    }
}

/// A term list as texts and coefficients.
pub open spec fn terms_view(t: AffineTerms) -> Seq<(Seq<char>, i64)> {
    t@.map_values(|p: (Vec<char>, i64)| (p.0@, p.1))
}

/// Bounds as term texts and bounds.
pub open spec fn bounds_view(e: Seq<(AffineTerms, i64)>) -> Seq<(Seq<(Seq<char>, i64)>, i64)> {
    e.map_values(|b: (AffineTerms, i64)| (terms_view(b.0), b.1))
}

/// An atom of `t` is `name`.
pub open spec fn mentions_atom(t: AffineTerms, name: Seq<char>) -> bool {
    exists|i: int| 0 <= i < t@.len() && (#[trigger] t@[i]).0@ == name
}

/// The bounds of `e` whose terms do not mention `name`, in order.
pub open spec fn kept_bounds(e: Seq<(AffineTerms, i64)>, name: Seq<char>) -> Seq<(Seq<(Seq<char>, i64)>, i64)>
    decreases e.len(),
{
    if e.len() == 0 {
        Seq::empty()
    } else {
        let rest = kept_bounds(e.drop_last(), name);
        if mentions_atom(e.last().0, name) {
            rest
        } else {
            rest.push((terms_view(e.last().0), e.last().1))
        }
    }
}

/// Every bound of `a` is recorded in `b` with the same value.
pub open spec fn bounds_within(a: Seq<(AffineTerms, i64)>, b: Seq<(AffineTerms, i64)>) -> bool {
    forall|i: int| 0 <= i < a.len() ==> bound_of(b, #[trigger] a[i].0) == Some(a[i].1)
}

/// Upper bounds of affine term lists: `terms <= bound`.
#[derive(Clone, Debug)]
pub struct AffineBounds {
    pub entries: Vec<(AffineTerms, i64)>,
}

impl AffineBounds {
    /// No bounds.
    pub fn new() -> (r: AffineBounds)
        ensures
            r.entries@.len() == 0,
    {
        AffineBounds { entries: Vec::new() }
    }

    /// The bound recorded for `terms`.
    pub fn get(&self, terms: &AffineTerms) -> (r: Option<i64>)
        ensures
            r == bound_of(self.entries@, *terms),
            r matches Some(b) ==> exists|i: int|
                0 <= i < self.entries@.len() && #[trigger] self.entries@[i].1 == b,
    {
        let mut i: usize = 0;
        while i < self.entries.len()
            invariant
                i <= self.entries.len(),
                forall|j: int| 0 <= j < i ==> !same_terms(#[trigger] self.entries@[j].0, *terms),
            decreases self.entries.len() - i,
        {
            if terms_eq(&self.entries[i].0, terms) {
                proof {
                    assert(bound_at(self.entries@, *terms, i as int));
                    let c = choose|c: int| bound_at(self.entries@, *terms, c);
                    if c < i {
                        assert(!same_terms(self.entries@[c].0, *terms));
                    } else if c > i {
                        assert(!same_terms(self.entries@[i as int].0, *terms));
                    }
                }
                return Some(self.entries[i].1);
            }
            i += 1;
        }
        None
    }

    /// Records `terms <= bound`, keeping the tighter of an earlier bound and
    /// this one.
    pub(crate) fn record_min(&mut self, terms: AffineTerms, bound: i64)
        ensures
            unbounded(old(self).entries@, terms) ==> final(self).entries@ == old(self).entries@.push(
                (terms, bound),
            ),
            forall|i: int| #[trigger] bound_at(old(self).entries@, terms, i) ==> final(self).entries@
                == old(self).entries@.update(
                i,
                (
                    terms,
                    if old(self).entries@[i].1 <= bound {
                        old(self).entries@[i].1
                    } else {
                        bound
                    },
                ),
            ),
    {
        let mut i: usize = 0;
        while i < self.entries.len()
            invariant
                i <= self.entries.len(),
                self.entries@ == old(self).entries@,
                forall|j: int| 0 <= j < i ==> !same_terms(#[trigger] self.entries@[j].0, terms),
            decreases self.entries.len() - i,
        {
            if terms_eq(&self.entries[i].0, &terms) {
                let known = self.entries[i].1;
                let tighter = if known <= bound {
                    known
                } else {
                    bound
                };
                proof {
                    assert forall|c: int| #[trigger] bound_at(old(self).entries@, terms, c) implies c == i by {
                        if c < i {
                            assert(!same_terms(old(self).entries@[c].0, terms));
                        } else if c > i {
                            assert(!same_terms(old(self).entries@[i as int].0, terms));
                        }
                    }
                    assert(bound_at(old(self).entries@, terms, i as int));
                }
                self.entries.set(i, (terms, tighter));
                return;
            }
            i += 1;
        }
        self.entries.push((terms, bound));
    }

    /// Sets the bound of `terms`.
    pub(crate) fn set(&mut self, terms: AffineTerms, bound: i64)
        ensures
            unbounded(old(self).entries@, terms) ==> final(self).entries@ == old(self).entries@.push(
                (terms, bound),
            ),
            forall|i: int| #[trigger] bound_at(old(self).entries@, terms, i) ==> final(self).entries@
                == old(self).entries@.update(i, (terms, bound)),
    {
        let mut i: usize = 0;
        while i < self.entries.len()
            invariant
                i <= self.entries.len(),
                self.entries@ == old(self).entries@,
                forall|j: int| 0 <= j < i ==> !same_terms(#[trigger] self.entries@[j].0, terms),
            decreases self.entries.len() - i,
        {
            if terms_eq(&self.entries[i].0, &terms) {
                proof {
                    assert forall|c: int| #[trigger] bound_at(old(self).entries@, terms, c) implies c == i by {
                        if c < i {
                            assert(!same_terms(old(self).entries@[c].0, terms));
                        } else if c > i {
                            assert(!same_terms(old(self).entries@[i as int].0, terms));
                        }
                    }
                }
                self.entries.set(i, (terms, bound));
                return;
            }
            i += 1;
        }
        self.entries.push((terms, bound));
    }

    /// Drops every bound whose terms mention `name`.
    pub(crate) fn forget_atom(&mut self, name: &Vec<char>)
        ensures
            bounds_view(final(self).entries@) == kept_bounds(old(self).entries@, name@),
    {
        let mut out: Vec<(AffineTerms, i64)> = Vec::new();
        let mut i: usize = 0;
        while i < self.entries.len()
            invariant
                i <= self.entries.len(),
                bounds_view(out@) == kept_bounds(self.entries@.take(i as int), name@),
            decreases self.entries.len() - i,
        {
            proof {
                assert(self.entries@.take(i + 1).drop_last() =~= self.entries@.take(i as int));
                assert(self.entries@.take(i + 1).last() == self.entries@[i as int]);
            }
            if !terms_mention(&self.entries[i].0, name) {
                let ghost before = out@;
                let c = copy_terms(&self.entries[i].0);
                proof {
                    assert(terms_view(c) =~= terms_view(self.entries@[i as int].0));
                }
                out.push((c, self.entries[i].1));
                proof {
                    assert(bounds_view(out@) =~= bounds_view(before).push(
                        (terms_view(self.entries@[i as int].0), self.entries@[i as int].1),
                    ));
                }
            }
            i += 1;
        }
        proof {
            assert(self.entries@.take(self.entries@.len() as int) =~= self.entries@);
        }
        self.entries = out;
    }

    /// A copy of the bounds.
    pub fn duplicate(&self) -> (r: AffineBounds)
        ensures
            bounds_view(r.entries@) == bounds_view(self.entries@),
    {
        let mut out: Vec<(AffineTerms, i64)> = Vec::new();
        let mut i: usize = 0;
        while i < self.entries.len()
            invariant
                i <= self.entries.len(),
                bounds_view(out@) == bounds_view(self.entries@.take(i as int)),
            decreases self.entries.len() - i,
        {
            let ghost before = out@;
            let c = copy_terms(&self.entries[i].0);
            proof {
                assert(terms_view(c) =~= terms_view(self.entries@[i as int].0));
            }
            out.push((c, self.entries[i].1));
            proof {
                assert(bounds_view(out@) =~= bounds_view(before).push(
                    (terms_view(self.entries@[i as int].0), self.entries@[i as int].1),
                ));
                assert(bounds_view(self.entries@.take(i + 1)) =~= bounds_view(self.entries@.take(i as int)).push(
                    (terms_view(self.entries@[i as int].0), self.entries@[i as int].1),
                ));
            }
            i += 1;
        }
        proof {
            assert(self.entries@.take(self.entries@.len() as int) =~= self.entries@);
        }
        AffineBounds { entries: out }
    }

    /// True when every bound of `self` is recorded in `other` with the same
    /// value.
    pub(crate) fn included_in(&self, other: &AffineBounds) -> (r: bool)
        ensures
            r == bounds_within(self.entries@, other.entries@),
    {
        let mut i: usize = 0;
        while i < self.entries.len()
            invariant
                i <= self.entries.len(),
                forall|j: int| 0 <= j < i ==> bound_of(other.entries@, #[trigger] self.entries@[j].0) == Some(
                    self.entries@[j].1,
                ),
            decreases self.entries.len() - i,
        {
            match other.get(&self.entries[i].0) {
                Some(b) => {
                    if b != self.entries[i].1 {
                        return false;
                    }
                },
                None => {
                    return false;
                },
            }
            i += 1;
        }
        true
    }
}

/// True when an atom of `terms` is `name`.
pub fn terms_mention(terms: &AffineTerms, name: &Vec<char>) -> (r: bool)
    ensures
        r == exists|i: int| 0 <= i < terms@.len() && (#[trigger] terms@[i]).0@ == name@,
{
    let mut i: usize = 0;
    while i < terms.len()
        invariant
            i <= terms.len(),
            forall|j: int| 0 <= j < i ==> (#[trigger] terms@[j]).0@ != name@,
        decreases terms.len() - i,
    {
        if text_eq(&terms[i].0, name) {
            return true;
        }
        i += 1;
    }
    false
}

/// How a user function constrains an index: the argument at `index_arg` is
/// proven in bounds for the vector at `vector_arg`, projected through the
/// arguments at `projection_index_args` in order.
#[derive(Clone, Debug, PartialEq, Eq)]
pub struct GuardRelation {
    pub vector_arg: usize,
    pub projection_index_args: Vec<usize>,
    pub index_arg: usize,
}

/// A user predicate: its parameters and the Lisp text of its body.
#[derive(Clone, Debug)]
pub struct PredicateSummary {
    pub params: Vec<Vec<char>>,
    pub body: Vec<char>,
}

/// Facts about user functions, fixed while one program is analyzed.
pub struct Summaries<'a> {
    pub guards: &'a TextMap<Vec<GuardRelation>>,
    pub predicates: &'a TextMap<PredicateSummary>,
}

/// What is known at one program point.
pub struct AbstractState {
    /// `(vector, index)`: the index is proven within the vector's bounds.
    pub safe_pairs: PairSet,
    pub nonnegative: TextSet,
    pub integer_constants: TextMap<i32>,
    pub integer_ranges: TextMap<IntInterval>,
    pub nonzero: TextSet,
    /// `(a, b)`: `a <= b`.
    pub leq_pairs: PairSet,
    /// Upper bounds of normalized affine expressions.
    pub affine_upper_bounds: AffineBounds,
    /// Canonical operand pairs whose product cannot exceed the largest Int.
    pub product_upper_safe: PairSet,
    /// Canonical operand pairs whose product cannot go below the smallest Int.
    pub product_lower_safe: PairSet,
    pub fixed_lengths: TextMap<usize>,
    pub minimum_lengths: TextMap<usize>,
    /// Names bound to `(length xs)`, with the vector they measure.
    pub length_sources: TextMap<Vec<char>>,
    /// The canonical vector an immutable name stands for.
    pub aliases: TextMap<Vec<char>>,
    /// The canonical scalar expression an immutable name stands for.
    pub scalar_aliases: TextMap<Vec<char>>,
}

/// The state that knows nothing: every set and map of facts is empty.
pub open spec fn blank(s: AbstractState) -> bool {
    &&& forall|x: Seq<char>, y: Seq<char>| !s.safe_pairs.has(x, y)
    &&& forall|x: Seq<char>, y: Seq<char>| !s.leq_pairs.has(x, y)
    &&& forall|x: Seq<char>, y: Seq<char>| !s.product_upper_safe.has(x, y)
    &&& forall|x: Seq<char>, y: Seq<char>| !s.product_lower_safe.has(x, y)
    &&& forall|k: Seq<char>| !s.nonnegative.has(k)
    &&& forall|k: Seq<char>| !s.nonzero.has(k)
    &&& forall|k: Seq<char>| !s.integer_constants.has_key(k)
    &&& forall|k: Seq<char>| !s.integer_ranges.has_key(k)
    &&& forall|k: Seq<char>| !s.fixed_lengths.has_key(k)
    &&& forall|k: Seq<char>| !s.minimum_lengths.has_key(k)
    &&& forall|k: Seq<char>| !s.length_sources.has_key(k)
    &&& forall|k: Seq<char>| !s.aliases.has_key(k)
    &&& forall|k: Seq<char>| !s.scalar_aliases.has_key(k)
    &&& s.affine_upper_bounds.entries@.len() == 0
}

/// `r` holds exactly the facts of `s`.
pub open spec fn copy_of(r: AbstractState, s: AbstractState) -> bool {
    &&& forall|x: Seq<char>, y: Seq<char>| #[trigger] r.safe_pairs.has(x, y) == s.safe_pairs.has(x, y)
    &&& forall|x: Seq<char>, y: Seq<char>| #[trigger] r.leq_pairs.has(x, y) == s.leq_pairs.has(x, y)
    &&& forall|x: Seq<char>, y: Seq<char>| #[trigger] r.product_upper_safe.has(x, y) == s.product_upper_safe.has(x, y)
    &&& forall|x: Seq<char>, y: Seq<char>| #[trigger] r.product_lower_safe.has(x, y) == s.product_lower_safe.has(x, y)
    &&& forall|k: Seq<char>| #[trigger] r.nonnegative.has(k) == s.nonnegative.has(k)
    &&& forall|k: Seq<char>| #[trigger] r.nonzero.has(k) == s.nonzero.has(k)
    &&& values_within(r.integer_constants, s.integer_constants) && values_within(s.integer_constants, r.integer_constants)
    &&& values_within(r.integer_ranges, s.integer_ranges) && values_within(s.integer_ranges, r.integer_ranges)
    &&& values_within(r.fixed_lengths, s.fixed_lengths) && values_within(s.fixed_lengths, r.fixed_lengths)
    &&& values_within(r.minimum_lengths, s.minimum_lengths) && values_within(s.minimum_lengths, r.minimum_lengths)
    &&& texts_within(r.length_sources, s.length_sources) && texts_within(s.length_sources, r.length_sources)
    &&& texts_within(r.aliases, s.aliases) && texts_within(s.aliases, r.aliases)
    &&& texts_within(r.scalar_aliases, s.scalar_aliases) && texts_within(s.scalar_aliases, r.scalar_aliases)
    &&& bounds_view(r.affine_upper_bounds.entries@) == bounds_view(s.affine_upper_bounds.entries@)
}

/// Every entry of `a` is in `b` with the same value.
pub open spec fn values_within<V>(a: TextMap<V>, b: TextMap<V>) -> bool {
    forall|k: Seq<char>| #[trigger] a.has_key(k) ==> b.has_key(k) && b.value_at(k) == a.value_at(k)
}

/// Every entry of `a` is in `b` with the same text.
pub open spec fn texts_within(a: TextMap<Vec<char>>, b: TextMap<Vec<char>>) -> bool {
    forall|k: Seq<char>| #[trigger] a.has_key(k) ==> b.has_key(k) && b.value_at(k)@ == a.value_at(k)@
}

/// Every pair of `a` is in `b`.
pub open spec fn pairs_within(a: PairSet, b: PairSet) -> bool {
    forall|x: Seq<char>, y: Seq<char>| a.has(x, y) ==> #[trigger] b.has(x, y)
}

/// Every member of `a` is in `b`.
pub open spec fn members_within(a: TextSet, b: TextSet) -> bool {
    forall|x: Seq<char>| a.has(x) ==> #[trigger] b.has(x)
}

/// The two states hold the same facts, each set and map in both
/// directions.
pub open spec fn same_facts(a: AbstractState, b: AbstractState) -> bool {
    &&& pairs_within(a.safe_pairs, b.safe_pairs) && pairs_within(b.safe_pairs, a.safe_pairs)
    &&& members_within(a.nonnegative, b.nonnegative) && members_within(b.nonnegative, a.nonnegative)
    &&& values_within(a.integer_constants, b.integer_constants) && values_within(b.integer_constants, a.integer_constants)
    &&& values_within(a.integer_ranges, b.integer_ranges) && values_within(b.integer_ranges, a.integer_ranges)
    &&& members_within(a.nonzero, b.nonzero) && members_within(b.nonzero, a.nonzero)
    &&& pairs_within(a.leq_pairs, b.leq_pairs) && pairs_within(b.leq_pairs, a.leq_pairs)
    &&& bounds_within(a.affine_upper_bounds.entries@, b.affine_upper_bounds.entries@)
    &&& bounds_within(b.affine_upper_bounds.entries@, a.affine_upper_bounds.entries@)
    &&& pairs_within(a.product_upper_safe, b.product_upper_safe) && pairs_within(b.product_upper_safe, a.product_upper_safe)
    &&& pairs_within(a.product_lower_safe, b.product_lower_safe) && pairs_within(b.product_lower_safe, a.product_lower_safe)
    &&& values_within(a.fixed_lengths, b.fixed_lengths) && values_within(b.fixed_lengths, a.fixed_lengths)
    &&& values_within(a.minimum_lengths, b.minimum_lengths) && values_within(b.minimum_lengths, a.minimum_lengths)
    &&& texts_within(a.length_sources, b.length_sources) && texts_within(b.length_sources, a.length_sources)
    &&& texts_within(a.aliases, b.aliases) && texts_within(b.aliases, a.aliases)
    &&& texts_within(a.scalar_aliases, b.scalar_aliases) && texts_within(b.scalar_aliases, a.scalar_aliases)
}

impl AbstractState {
    /// The state that knows nothing.
    pub fn empty() -> (r: AbstractState)
        ensures
            blank(r),
    {
        AbstractState {
            safe_pairs: PairSet::new(),
            nonnegative: TextSet::new(),
            integer_constants: TextMap::new(),
            integer_ranges: TextMap::new(),
            nonzero: TextSet::new(),
            leq_pairs: PairSet::new(),
            affine_upper_bounds: AffineBounds::new(),
            product_upper_safe: PairSet::new(),
            product_lower_safe: PairSet::new(),
            fixed_lengths: TextMap::new(),
            minimum_lengths: TextMap::new(),
            length_sources: TextMap::new(),
            aliases: TextMap::new(),
            scalar_aliases: TextMap::new(),
        }
    }

    /// A copy of the state.
    pub(crate) fn duplicate(&self) -> (r: AbstractState)
        ensures
            copy_of(r, *self),
    {
        AbstractState {
            safe_pairs: self.safe_pairs.duplicate(),
            nonnegative: self.nonnegative.duplicate(),
            integer_constants: self.integer_constants.duplicate(),
            integer_ranges: self.integer_ranges.duplicate(),
            nonzero: self.nonzero.duplicate(),
            leq_pairs: self.leq_pairs.duplicate(),
            affine_upper_bounds: self.affine_upper_bounds.duplicate(),
            product_upper_safe: self.product_upper_safe.duplicate(),
            product_lower_safe: self.product_lower_safe.duplicate(),
            fixed_lengths: self.fixed_lengths.duplicate(),
            minimum_lengths: self.minimum_lengths.duplicate(),
            length_sources: self.length_sources.duplicate_texts(),
            aliases: self.aliases.duplicate_texts(),
            scalar_aliases: self.scalar_aliases.duplicate_texts(),
        }
    }

    /// The scalar facts a closure may capture: container facts are left out,
    /// since the vector may change before the closure runs.
    pub fn captured_scalars(&self) -> (r: AbstractState)
        ensures
            forall|x: Seq<char>, y: Seq<char>| !r.safe_pairs.has(x, y),
            forall|k: Seq<char>| !r.fixed_lengths.has_key(k),
            forall|k: Seq<char>| !r.minimum_lengths.has_key(k),
            forall|k: Seq<char>| !r.length_sources.has_key(k),
            forall|k: Seq<char>| !r.aliases.has_key(k),
            forall|k: Seq<char>| #[trigger] r.integer_constants.has_key(k) == self.integer_constants.has_key(k),
            forall|k: Seq<char>| #[trigger] r.integer_ranges.has_key(k) == self.integer_ranges.has_key(k),
            forall|k: Seq<char>| #[trigger] r.scalar_aliases.has_key(k) == self.scalar_aliases.has_key(k),
    {
        AbstractState {
            safe_pairs: PairSet::new(),
            nonnegative: self.nonnegative.clone(),
            integer_constants: self.integer_constants.duplicate(),
            integer_ranges: self.integer_ranges.duplicate(),
            nonzero: self.nonzero.clone(),
            leq_pairs: self.leq_pairs.clone(),
            affine_upper_bounds: self.affine_upper_bounds.clone(),
            product_upper_safe: self.product_upper_safe.clone(),
            product_lower_safe: self.product_lower_safe.clone(),
            fixed_lengths: TextMap::new(),
            minimum_lengths: TextMap::new(),
            length_sources: TextMap::new(),
            aliases: TextMap::new(),
            scalar_aliases: self.scalar_aliases.duplicate_texts(),
        }
    }
}

/// The range recorded for a canonical atom, its constant, or all of Int.
pub(crate) fn range_for_canonical_atom(atom: &Vec<char>, state: &AbstractState) -> (r: IntInterval)
    ensures
        r == atom_range(atom@, *state),
        !state.integer_ranges.has_key(atom@) && !state.integer_constants.has_key(atom@) ==> r.min
            == I32_MIN && r.max == I32_MAX,
{
    match state.integer_ranges.get(atom) {
        Some(range) => range,
        None => match state.integer_constants.get(atom) {
            Some(c) => IntInterval::exact(c),
            None => IntInterval::i32_range(),
        },
    }
}

/// The range recorded for an atom, else its constant, else all of Int.
pub open spec fn atom_range(atom: Seq<char>, state: AbstractState) -> IntInterval {
    if state.integer_ranges.has_key(atom) {
        state.integer_ranges.value_at(atom)
    } else if state.integer_constants.has_key(atom) {
        IntInterval {
            min: state.integer_constants.value_at(atom) as i64,
            max: state.integer_constants.value_at(atom) as i64,
        }
    } else {
        IntInterval { min: I32_MIN, max: I32_MAX }
    }
}

/// The smallest of four integers.
pub open spec fn min4(p: int, q: int, r: int, s: int) -> int {
    min2(min2(p, q), min2(r, s))
}

/// The largest of four integers.
pub open spec fn max4(p: int, q: int, r: int, s: int) -> int {
    max2(max2(p, q), max2(r, s))
}

/// The range of a product of values from `l` and `r`, each corner clamped
/// to `i64`.
pub open spec fn product_range(l: IntInterval, r: IntInterval) -> IntInterval {
    let p1 = clamp64(l.min * r.min);
    let p2 = clamp64(l.min * r.max);
    let p3 = clamp64(l.max * r.min);
    let p4 = clamp64(l.max * r.max);
    IntInterval { min: min4(p1, p2, p3, p4) as i64, max: max4(p1, p2, p3, p4) as i64 }
}

/// The product of the pair is proven not to exceed the largest Int.
pub open spec fn upper_safe(a: Seq<char>, b: Seq<char>, state: AbstractState) -> bool {
    state.product_upper_safe.has(a, b) || product_range(atom_range(a, state), atom_range(b, state)).max
        <= I32_MAX
}

/// The product of the pair is proven not to go below the smallest Int.
pub open spec fn lower_safe(a: Seq<char>, b: Seq<char>, state: AbstractState) -> bool {
    state.product_lower_safe.has(a, b) || product_range(atom_range(a, state), atom_range(b, state)).min
        >= I32_MIN
}

/// `v` fits in `i64`.
pub open spec fn fits64(v: int) -> bool {
    i64::MIN <= v <= i64::MAX
}

/// The interval of an affine term list from the ranges of its atoms;
/// `None` when a product or a partial sum leaves `i64`.
pub open spec fn atoms_interval(t: Seq<(Vec<char>, i64)>, state: AbstractState) -> Option<IntInterval>
    decreases t.len(),
{
    if t.len() == 0 {
        Some(IntInterval { min: 0, max: 0 })
    } else {
        match atoms_interval(t.drop_last(), state) {
            None => None,
            Some(acc) => {
                let c = t.last().1;
                let range = atom_range(t.last().0@, state);
                let lo = if c >= 0 {
                    range.min * c
                } else {
                    range.max * c
                };
                let hi = if c >= 0 {
                    range.max * c
                } else {
                    range.min * c
                };
                if fits64(lo) && fits64(hi) && fits64(acc.min + lo) && fits64(acc.max + hi) {
                    Some(IntInterval { min: (acc.min + lo) as i64, max: (acc.max + hi) as i64 })
                } else {
                    None
                }
            },
        }
    }
}

/// The best known upper bound of an affine term list: the recorded bound,
/// if any, capped by the bound from the atoms' ranges.
pub open spec fn affine_bound(t: AffineTerms, state: AbstractState) -> Option<i64> {
    match atoms_interval(t@, state) {
        None => None,
        Some(iv) => Some(
            match bound_of(state.affine_upper_bounds.entries@, t) {
                Some(k) => if k <= iv.max {
                    k
                } else {
                    iv.max
                },
                None => iv.max,
            },
        ),
    }
}

fn min_of4(p: i64, q: i64, r: i64, s: i64) -> (m: i64)
    ensures
        m <= p && m <= q && m <= r && m <= s,
        m == min4(p as int, q as int, r as int, s as int),
{
    let a = if p <= q {
        p
    } else {
        q
    };
    let b = if r <= s {
        r
    } else {
        s
    };
    if a <= b {
        a
    } else {
        b
    }
}

fn max_of4(p: i64, q: i64, r: i64, s: i64) -> (m: i64)
    ensures
        m >= p && m >= q && m >= r && m >= s,
        m == max4(p as int, q as int, r as int, s as int),
{
    let a = if p >= q {
        p
    } else {
        q
    };
    let b = if r >= s {
        r
    } else {
        s
    };
    if a >= b {
        a
    } else {
        b
    }
}

/// The range of the product of a canonical operand pair.
pub(crate) fn product_interval_for_pair(a: &Vec<char>, b: &Vec<char>, state: &AbstractState) -> (r:
    IntInterval)
    ensures
        blank(*state) ==> r.max > I32_MAX && r.min < I32_MIN,
        r == product_range(atom_range(a@, *state), atom_range(b@, *state)),
{
    let left = range_for_canonical_atom(a, state);
    let right = range_for_canonical_atom(b, state);
    let p1 = sat_mul(left.min, right.min);
    let p2 = sat_mul(left.min, right.max);
    let p3 = sat_mul(left.max, right.min);
    let p4 = sat_mul(left.max, right.max);
    proof {
        if blank(*state) {
            assert(!state.integer_ranges.has_key(a@) && !state.integer_constants.has_key(a@));
            assert(!state.integer_ranges.has_key(b@) && !state.integer_constants.has_key(b@));
            assert(left.max * right.max == 2147483647 * 2147483647) by (nonlinear_arith)
                requires
                    left.max == 2147483647,
                    right.max == 2147483647,
            ;
            assert(left.min * right.max == -2147483648 * 2147483647) by (nonlinear_arith)
                requires
                    left.min == -2147483648,
                    right.max == 2147483647,
            ;
        }
    }
    IntInterval { min: min_of4(p1, p2, p3, p4), max: max_of4(p1, p2, p3, p4) }
}

/// The product of the pair is proven not to exceed the largest Int.
pub(crate) fn product_upper_is_safe(a: &Vec<char>, b: &Vec<char>, state: &AbstractState) -> (r: bool)
    ensures
        blank(*state) ==> !r,
        r == upper_safe(a@, b@, *state),
{
    state.product_upper_safe.contains(a, b) || product_interval_for_pair(a, b, state).max
        <= I32_MAX
}

/// The product of the pair is proven not to go below the smallest Int.
pub(crate) fn product_lower_is_safe(a: &Vec<char>, b: &Vec<char>, state: &AbstractState) -> (r: bool)
    ensures
        blank(*state) ==> !r,
        r == lower_safe(a@, b@, *state),
{
    state.product_lower_safe.contains(a, b) || product_interval_for_pair(a, b, state).min
        >= I32_MIN
}

/// `a + b`, unless it leaves `i64`.
pub fn checked_add64(a: i64, b: i64) -> (r: Option<i64>)
    ensures
        r matches Some(v) ==> v == a + b,
        r is None <==> (a + b < i64::MIN || a + b > i64::MAX),
{
    let s = a as i128 + b as i128;
    if s < i64::MIN as i128 || s > i64::MAX as i128 {
        None
    } else {
        Some(s as i64)
    }
}

/// `a - b`, unless it leaves `i64`.
pub fn checked_sub64(a: i64, b: i64) -> (r: Option<i64>)
    ensures
        r matches Some(v) ==> v == a - b,
        r is None <==> (a - b < i64::MIN || a - b > i64::MAX),
{
    let s = a as i128 - b as i128;
    if s < i64::MIN as i128 || s > i64::MAX as i128 {
        None
    } else {
        Some(s as i64)
    }
}

/// `a * b`, unless it leaves `i64`.
pub fn checked_mul64(a: i64, b: i64) -> (r: Option<i64>)
    ensures
        r matches Some(v) ==> v == a * b,
        r is None <==> (a * b < i64::MIN || a * b > i64::MAX),
{
    assert(-0x8000_0000_0000_0000 * 0x8000_0000_0000_0000 <= a * b <= 0x8000_0000_0000_0000
        * 0x8000_0000_0000_0000) by (nonlinear_arith)
        requires
            -0x8000_0000_0000_0000 <= a <= 0x7fff_ffff_ffff_ffff,
            -0x8000_0000_0000_0000 <= b <= 0x7fff_ffff_ffff_ffff,
    ;
    let s = a as i128 * b as i128;
    if s < i64::MIN as i128 || s > i64::MAX as i128 {
        None
    } else {
        Some(s as i64)
    }
}

/// Once a prefix of the terms leaves `i64`, so does the whole list.
proof fn lemma_atoms_interval_prefix(t: Seq<(Vec<char>, i64)>, state: AbstractState, k: int)
    requires
        0 <= k <= t.len(),
        atoms_interval(t.take(k), state) is None,
    ensures
        atoms_interval(t, state) is None,
    decreases t.len() - k,
{
    if k < t.len() {
        assert(t.take(k + 1).drop_last() =~= t.take(k));
        lemma_atoms_interval_prefix(t, state, k + 1);
    } else {
        assert(t.take(k) =~= t);
    }
}

/// The interval an affine term list ranges over, from the ranges of its
/// atoms; `None` when a bound leaves `i64`.
pub(crate) fn affine_interval_from_atoms(terms: &AffineTerms, state: &AbstractState) -> (r: Option<
    IntInterval,
>)
    ensures
        terms@.len() == 0 ==> r == Some((IntInterval { min: 0, max: 0 })),
        r == atoms_interval(terms@, *state),
{
    let mut result = IntInterval { min: 0, max: 0 };
    let mut i: usize = 0;
    while i < terms.len()
        invariant
            i <= terms.len(),
            i == 0 ==> result == (IntInterval { min: 0, max: 0 }),
            atoms_interval(terms@.take(i as int), *state) == Some(result),
        decreases terms.len() - i,
    {
        proof {
            assert(terms@.take(i + 1).drop_last() =~= terms@.take(i as int));
            assert(terms@.take(i + 1).last() == terms@[i as int]);
            assert(terms@.take(i + 1).len() > 0);
        }
        let coefficient = terms[i].1;
        let range = range_for_canonical_atom(&terms[i].0, state);
        let (lo, hi) = if coefficient >= 0 {
            (checked_mul64(range.min, coefficient), checked_mul64(range.max, coefficient))
        } else {
            (checked_mul64(range.max, coefficient), checked_mul64(range.min, coefficient))
        };
        let (lo, hi) = match (lo, hi) {
            (Some(lo), Some(hi)) => (lo, hi),
            _ => {
                proof {
                    lemma_atoms_interval_prefix(terms@, *state, i + 1);
                }
                return None;
            },
        };
        let new_min = match checked_add64(result.min, lo) {
            Some(v) => v,
            None => {
                proof {
                    lemma_atoms_interval_prefix(terms@, *state, i + 1);
                }
                return None;
            },
        };
        let new_max = match checked_add64(result.max, hi) {
            Some(v) => v,
            None => {
                proof {
                    lemma_atoms_interval_prefix(terms@, *state, i + 1);
                }
                return None;
            },
        };
        result = IntInterval { min: new_min, max: new_max };
        i += 1;
    }
    proof {
        assert(terms@.take(terms@.len() as int) =~= terms@);
    }
    Some(result)
}

/// The best known upper bound of an affine term list.
pub(crate) fn affine_upper_bound(terms: &AffineTerms, state: &AbstractState) -> (r: Option<i64>)
    ensures
        terms@.len() == 0 && state.affine_upper_bounds.entries@.len() == 0 ==> r == Some(0i64),
        r == affine_bound(*terms, *state),
{
    let interval_bound = match affine_interval_from_atoms(terms, state) {
        Some(i) => i.max,
        None => {
            return None;
        },
    };
    match state.affine_upper_bounds.get(terms) {
        Some(known) => Some(
            if known <= interval_bound {
                known
            } else {
                interval_bound
            },
        ),
        None => Some(interval_bound),
    }
}

/// The term list with every coefficient negated.
pub fn negate_affine_terms(terms: &AffineTerms) -> (r: AffineTerms)
    ensures
        r@.len() == terms@.len(),
        forall|i: int|
            0 <= i < terms@.len() ==> (#[trigger] r@[i]).0@ == terms@[i].0@ && r@[i].1 == clamp64(
                -terms@[i].1,
            ),
{
    let mut out: AffineTerms = Vec::new();
    let mut i: usize = 0;
    while i < terms.len()
        invariant
            i <= terms.len(),
            out@.len() == i,
            forall|j: int|
                0 <= j < i ==> (#[trigger] out@[j]).0@ == terms@[j].0@ && out@[j].1 == clamp64(
                    -terms@[j].1,
                ),
        decreases terms.len() - i,
    {
        let c = terms[i].1;
        let negated = if c == i64::MIN {
            i64::MAX
        } else {
            -c
        };
        out.push((copy_text(&terms[i].0), negated));
        i += 1;
    }
    out
}

/// The smaller of two integers.
pub open spec fn min2(a: int, b: int) -> int {
    if a <= b {
        a
    } else {
        b
    }
}

/// The larger of two integers.
pub open spec fn max2(a: int, b: int) -> int {
    if a >= b {
        a
    } else {
        b
    }
}

/// Conservative control-flow merge: a fact holds after the join only when it
/// held on both incoming edges.
#[verifier::rlimit(50)]
pub fn join_states(left: &AbstractState, right: &AbstractState) -> (r: AbstractState)
    ensures
        forall|x: Seq<char>, y: Seq<char>|
            #[trigger] r.safe_pairs.has(x, y) == (left.safe_pairs.has(x, y) && right.safe_pairs.has(
                x,
                y,
            )),
        forall|x: Seq<char>, y: Seq<char>|
            #[trigger] r.leq_pairs.has(x, y) == (left.leq_pairs.has(x, y) && right.leq_pairs.has(
                x,
                y,
            )),
        forall|x: Seq<char>|
            #[trigger] r.nonnegative.has(x) == (left.nonnegative.has(x) && right.nonnegative.has(x)),
        forall|x: Seq<char>| #[trigger] r.nonzero.has(x) == (left.nonzero.has(x) && right.nonzero.has(x)),
        forall|k: Seq<char>|
            #[trigger] r.integer_constants.has_key(k) ==> left.integer_constants.has_key(k)
                && right.integer_constants.has_key(k) && r.integer_constants.value_at(k)
                == left.integer_constants.value_at(k) && left.integer_constants.value_at(k)
                == right.integer_constants.value_at(k),
        forall|k: Seq<char>|
            #[trigger] r.fixed_lengths.has_key(k) ==> left.fixed_lengths.has_key(k)
                && right.fixed_lengths.has_key(k) && r.fixed_lengths.value_at(k)
                == left.fixed_lengths.value_at(k) && left.fixed_lengths.value_at(k)
                == right.fixed_lengths.value_at(k),
        forall|k: Seq<char>|
            #[trigger] r.integer_ranges.has_key(k) ==> left.integer_ranges.has_key(k)
                && right.integer_ranges.has_key(k) && r.integer_ranges.value_at(k).min == min2(left.integer_ranges.value_at(k).min as int, right.integer_ranges.value_at(k).min as int) && r.integer_ranges.value_at(k).max == max2(left.integer_ranges.value_at(k).max as int, right.integer_ranges.value_at(k).max as int),
        forall|k: Seq<char>|
            #[trigger] r.minimum_lengths.has_key(k) ==> left.minimum_lengths.has_key(k)
                && right.minimum_lengths.has_key(k) && r.minimum_lengths.value_at(k) == min2(
                left.minimum_lengths.value_at(k) as int,
                right.minimum_lengths.value_at(k) as int,
            ),
        forall|k: Seq<char>|
            #[trigger] r.aliases.has_key(k) ==> left.aliases.has_key(k) && right.aliases.has_key(k)
                && left.aliases.value_at(k)@ == right.aliases.value_at(k)@,
        forall|k: Seq<char>|
            #[trigger] r.scalar_aliases.has_key(k) ==> left.scalar_aliases.has_key(k)
                && right.scalar_aliases.has_key(k) && left.scalar_aliases.value_at(k)@
                == right.scalar_aliases.value_at(k)@,
        forall|k: Seq<char>|
            #[trigger] r.length_sources.has_key(k) ==> left.length_sources.has_key(k)
                && right.length_sources.has_key(k) && left.length_sources.value_at(k)@
                == right.length_sources.value_at(k)@,
        forall|k: Seq<char>|
            left.integer_constants.has_key(k) && right.integer_constants.has_key(k)
                && left.integer_constants.value_at(k) == right.integer_constants.value_at(k)
                ==> #[trigger] r.integer_constants.has_key(k),
        forall|k: Seq<char>|
            left.fixed_lengths.has_key(k) && right.fixed_lengths.has_key(k)
                && left.fixed_lengths.value_at(k) == right.fixed_lengths.value_at(k)
                ==> #[trigger] r.fixed_lengths.has_key(k),
        forall|k: Seq<char>|
            left.integer_ranges.has_key(k) && right.integer_ranges.has_key(k)
                ==> #[trigger] r.integer_ranges.has_key(k),
        forall|k: Seq<char>|
            left.minimum_lengths.has_key(k) && right.minimum_lengths.has_key(k)
                ==> #[trigger] r.minimum_lengths.has_key(k),
        forall|k: Seq<char>|
            left.aliases.has_key(k) && right.aliases.has_key(k) && left.aliases.value_at(k)@
                == right.aliases.value_at(k)@ ==> #[trigger] r.aliases.has_key(k),
        forall|k: Seq<char>|
            left.scalar_aliases.has_key(k) && right.scalar_aliases.has_key(k)
                && left.scalar_aliases.value_at(k)@ == right.scalar_aliases.value_at(k)@
                ==> #[trigger] r.scalar_aliases.has_key(k),
        forall|k: Seq<char>|
            left.length_sources.has_key(k) && right.length_sources.has_key(k)
                && left.length_sources.value_at(k)@ == right.length_sources.value_at(k)@
                ==> #[trigger] r.length_sources.has_key(k),
{
    // maps whose entries must agree
    let mut fixed_lengths: TextMap<usize> = TextMap::new();
    let mut i: usize = 0;
    while i < left.fixed_lengths.len()
        invariant
            i <= left.fixed_lengths.size(),
            forall|k: Seq<char>|
                #[trigger] fixed_lengths.has_key(k) ==> left.fixed_lengths.has_key(k) && right.fixed_lengths.has_key(k)
                    && fixed_lengths.value_at(k) == left.fixed_lengths.value_at(k) && left.fixed_lengths.value_at(k) == right.fixed_lengths.value_at(k),
            forall|j: int| 0 <= j < i ==> (right.fixed_lengths.has_key(left.fixed_lengths.key_at(j)) && left.fixed_lengths.value_at(left.fixed_lengths.key_at(j)) == right.fixed_lengths.value_at(left.fixed_lengths.key_at(j))) ==> fixed_lengths.has_key(#[trigger] left.fixed_lengths.key_at(j)),
        decreases left.fixed_lengths.size() - i,
    {
        let (k, v) = left.fixed_lengths.entry_at(i);
        if let Some(other) = right.fixed_lengths.get(k) {
            if other == *v {
                fixed_lengths.insert(copy_text(k), *v);
            }
        }
        i += 1;
    }
    let mut integer_constants: TextMap<i32> = TextMap::new();
    let mut i: usize = 0;
    while i < left.integer_constants.len()
        invariant
            i <= left.integer_constants.size(),
            forall|k: Seq<char>|
                #[trigger] integer_constants.has_key(k) ==> left.integer_constants.has_key(k) && right.integer_constants.has_key(k)
                    && integer_constants.value_at(k) == left.integer_constants.value_at(k) && left.integer_constants.value_at(k) == right.integer_constants.value_at(k),
            forall|j: int| 0 <= j < i ==> (right.integer_constants.has_key(left.integer_constants.key_at(j)) && left.integer_constants.value_at(left.integer_constants.key_at(j)) == right.integer_constants.value_at(left.integer_constants.key_at(j))) ==> integer_constants.has_key(#[trigger] left.integer_constants.key_at(j)),
        decreases left.integer_constants.size() - i,
    {
        let (k, v) = left.integer_constants.entry_at(i);
        if let Some(other) = right.integer_constants.get(k) {
            if other == *v {
                integer_constants.insert(copy_text(k), *v);
            }
        }
        i += 1;
    }
    let mut integer_ranges: TextMap<IntInterval> = TextMap::new();
    let mut i: usize = 0;
    while i < left.integer_ranges.len()
        invariant
            i <= left.integer_ranges.size(),
            forall|k: Seq<char>|
                #[trigger] integer_ranges.has_key(k) ==> left.integer_ranges.has_key(k) && right.integer_ranges.has_key(k)
                    && integer_ranges.value_at(k).min == min2(left.integer_ranges.value_at(k).min as int, right.integer_ranges.value_at(k).min as int) && integer_ranges.value_at(k).max == max2(left.integer_ranges.value_at(k).max as int, right.integer_ranges.value_at(k).max as int),
            forall|j: int| 0 <= j < i ==> (right.integer_ranges.has_key(left.integer_ranges.key_at(j))) ==> integer_ranges.has_key(#[trigger] left.integer_ranges.key_at(j)),
        decreases left.integer_ranges.size() - i,
    {
        let (k, v) = left.integer_ranges.entry_at(i);
        if let Some(other) = right.integer_ranges.get(k) {
            integer_ranges.insert(
                copy_text(k),
                IntInterval {
                    min: if v.min <= other.min {
                        v.min
                    } else {
                        other.min
                    },
                    max: if v.max >= other.max {
                        v.max
                    } else {
                        other.max
                    },
                },
            );
        }
        i += 1;
    }
    let length_sources = join_text_maps(&left.length_sources, &right.length_sources);
    let mut minimum_lengths: TextMap<usize> = TextMap::new();
    let mut i: usize = 0;
    while i < left.minimum_lengths.len()
        invariant
            i <= left.minimum_lengths.size(),
            forall|k: Seq<char>|
                #[trigger] minimum_lengths.has_key(k) ==> left.minimum_lengths.has_key(k) && right.minimum_lengths.has_key(k)
                    && minimum_lengths.value_at(k) == min2(left.minimum_lengths.value_at(k) as int, right.minimum_lengths.value_at(k) as int),
            forall|j: int| 0 <= j < i ==> (right.minimum_lengths.has_key(left.minimum_lengths.key_at(j))) ==> minimum_lengths.has_key(#[trigger] left.minimum_lengths.key_at(j)),
        decreases left.minimum_lengths.size() - i,
    {
        let (k, v) = left.minimum_lengths.entry_at(i);
        if let Some(other) = right.minimum_lengths.get(k) {
            minimum_lengths.insert(
                copy_text(k),
                if *v <= other {
                    *v
                } else {
                    other
                },
            );
        }
        i += 1;
    }
    let aliases = join_text_maps(&left.aliases, &right.aliases);
    let scalar_aliases = join_text_maps(&left.scalar_aliases, &right.scalar_aliases);
    // affine bounds: every term list known on either side, bounded on both
    let mut affine_upper_bounds = AffineBounds::new();
    let mut i: usize = 0;
    while i < left.affine_upper_bounds.entries.len()
        decreases left.affine_upper_bounds.entries.len() - i,
    {
        join_affine_candidate(&left.affine_upper_bounds.entries[i].0, left, right, &mut affine_upper_bounds);
        i += 1;
    }
    let mut i: usize = 0;
    while i < right.affine_upper_bounds.entries.len()
        decreases right.affine_upper_bounds.entries.len() - i,
    {
        join_affine_candidate(&right.affine_upper_bounds.entries[i].0, left, right, &mut affine_upper_bounds);
        i += 1;
    }
    // products: every pair known safe on either side, kept when safe on both
    let mut product_upper_safe = PairSet::new();
    let mut product_lower_safe = PairSet::new();
    join_product_candidates(&left.product_upper_safe, left, right, &mut product_upper_safe, &mut product_lower_safe);
    join_product_candidates(&right.product_upper_safe, left, right, &mut product_upper_safe, &mut product_lower_safe);
    join_product_candidates(&left.product_lower_safe, left, right, &mut product_upper_safe, &mut product_lower_safe);
    join_product_candidates(&right.product_lower_safe, left, right, &mut product_upper_safe, &mut product_lower_safe);
    proof {
        left.integer_constants.lemma_keys();
        left.fixed_lengths.lemma_keys();
        left.integer_ranges.lemma_keys();
        left.minimum_lengths.lemma_keys();
    }
    AbstractState {
        safe_pairs: left.safe_pairs.intersect(&right.safe_pairs),
        nonnegative: left.nonnegative.intersect(&right.nonnegative),
        integer_constants,
        integer_ranges,
        nonzero: left.nonzero.intersect(&right.nonzero),
        leq_pairs: left.leq_pairs.intersect(&right.leq_pairs),
        affine_upper_bounds,
        product_upper_safe,
        product_lower_safe,
        fixed_lengths,
        minimum_lengths,
        length_sources,
        aliases,
        scalar_aliases,
    }
}

/// The entries on which two text-valued maps agree.
fn join_text_maps(left: &TextMap<Vec<char>>, right: &TextMap<Vec<char>>) -> (r: TextMap<Vec<char>>)
    ensures
        forall|k: Seq<char>|
            #[trigger] r.has_key(k) ==> (left.has_key(k) && right.has_key(k) && left.value_at(k)@
                == right.value_at(k)@),
        forall|k: Seq<char>|
            left.has_key(k) && right.has_key(k) && left.value_at(k)@ == right.value_at(k)@
                ==> #[trigger] r.has_key(k),
{
    let mut out: TextMap<Vec<char>> = TextMap::new();
    let mut i: usize = 0;
    while i < left.len()
        invariant
            i <= left.size(),
            forall|k: Seq<char>|
                #[trigger] out.has_key(k) ==> (left.has_key(k) && right.has_key(k) && left.value_at(k)@
                    == right.value_at(k)@),
            forall|j: int| 0 <= j < i ==> (right.has_key(left.key_at(j)) && left.value_at(left.key_at(j))@ == right.value_at(left.key_at(j))@) ==> out.has_key(#[trigger] left.key_at(j)),
        decreases left.size() - i,
    {
        let (k, v) = left.entry_at(i);
        if let Some(other) = right.get_ref(k) {
            if text_eq(v, other) {
                out.insert(copy_text(k), copy_text(v));
            }
        }
        i += 1;
    }
    proof {
        left.lemma_keys();
    }
    out
}

/// Records for `terms` the larger of the bounds the two states give, when
/// both give one.
fn join_affine_candidate(terms: &AffineTerms, left: &AbstractState, right: &AbstractState, out: &mut AffineBounds)
    ensures
        !(affine_bound(*terms, *left) is Some && affine_bound(*terms, *right) is Some) ==> *final(out) == *old(out),
        affine_bound(*terms, *left) is Some && affine_bound(*terms, *right) is Some ==> {
            let lb = affine_bound(*terms, *left)->0;
            let rb = affine_bound(*terms, *right)->0;
            let m: i64 = if lb >= rb {
                lb
            } else {
                rb
            };
            &&& unbounded(old(out).entries@, *terms) ==> bounds_view(final(out).entries@) == bounds_view(
                old(out).entries@,
            ).push((terms_view(*terms), m))
            &&& forall|i: int| #[trigger] bound_at(old(out).entries@, *terms, i) ==> bounds_view(final(out).entries@)
                == bounds_view(old(out).entries@).update(i, (terms_view(*terms), m))
        },
{
    if let Some(lb) = affine_upper_bound(terms, left) {
        if let Some(rb) = affine_upper_bound(terms, right) {
            let c = copy_terms(terms);
            let ghost e = out.entries@;
            proof {
                assert(terms_view(c) =~= terms_view(*terms));
                assert forall|j: int| 0 <= j < e.len() implies same_terms(#[trigger] e[j].0, c) == same_terms(e[j].0, *terms) by {
                    if same_terms(e[j].0, c) {
                        assert forall|q: int| 0 <= q < e[j].0@.len() implies (#[trigger] e[j].0@[q]).0@ == terms@[q].0@ && e[j].0@[q].1 == terms@[q].1 by {
                            assert(c@[q].0@ == terms@[q].0@);
                        }
                    }
                    if same_terms(e[j].0, *terms) {
                        assert forall|q: int| 0 <= q < e[j].0@.len() implies (#[trigger] e[j].0@[q]).0@ == c@[q].0@ && e[j].0@[q].1 == c@[q].1 by {
                            assert(c@[q].0@ == terms@[q].0@);
                        }
                    }
                }
            }
            let m = if lb >= rb {
                lb
            } else {
                rb
            };
            out.set(c, m);
            proof {
                if unbounded(e, *terms) {
                    assert(unbounded(e, c));
                    assert(bounds_view(out.entries@) =~= bounds_view(e).push((terms_view(*terms), m)));
                }
                assert forall|i: int| #[trigger] bound_at(e, *terms, i) implies bounds_view(out.entries@) == bounds_view(e).update(i, (terms_view(*terms), m)) by {
                    assert(bound_at(e, c, i));
                    assert(bounds_view(out.entries@) =~= bounds_view(e).update(i, (terms_view(*terms), m)));
                }
            }
        }
    }
}

/// One of the first `i` candidate pairs is `(x, y)` and is proven safe in
/// both states, on the upper side or the lower one.
pub open spec fn safe_candidate(
    c: PairSet,
    i: int,
    x: Seq<char>,
    y: Seq<char>,
    left: AbstractState,
    right: AbstractState,
    upper_side: bool,
) -> bool {
    exists|k: int|
        0 <= k < i && (#[trigger] c.items@[k]).0@ == x && c.items@[k].1@ == y && if upper_side {
            upper_safe(x, y, left) && upper_safe(x, y, right)
        } else {
            lower_safe(x, y, left) && lower_safe(x, y, right)
        }
}

/// Adds to `upper` and `lower` the candidate pairs whose product both
/// states prove safe on that side.
fn join_product_candidates(
    candidates: &PairSet,
    left: &AbstractState,
    right: &AbstractState,
    upper: &mut PairSet,
    lower: &mut PairSet,
)
    ensures
        forall|x: Seq<char>, y: Seq<char>| #[trigger] final(upper).has(x, y) == (old(upper).has(x, y) || (
        candidates.has(x, y) && upper_safe(x, y, *left) && upper_safe(x, y, *right))),
        forall|x: Seq<char>, y: Seq<char>| #[trigger] final(lower).has(x, y) == (old(lower).has(x, y) || (
        candidates.has(x, y) && lower_safe(x, y, *left) && lower_safe(x, y, *right))),
{
    let ghost up0 = *upper;
    let ghost low0 = *lower;
    let mut i: usize = 0;
    while i < candidates.items.len()
        invariant
            i <= candidates.items.len(),
            forall|x: Seq<char>, y: Seq<char>| #[trigger] upper.has(x, y) == (up0.has(x, y) || safe_candidate(*candidates, i as int, x, y, *left, *right, true)),
            forall|x: Seq<char>, y: Seq<char>| #[trigger] lower.has(x, y) == (low0.has(x, y) || safe_candidate(*candidates, i as int, x, y, *left, *right, false)),
        decreases candidates.items.len() - i,
    {
        let ghost up1 = *upper;
        let ghost low1 = *lower;
        let a = &candidates.items[i].0;
        let b = &candidates.items[i].1;
        if product_upper_is_safe(a, b, left) && product_upper_is_safe(a, b, right) {
            upper.insert(copy_text(a), copy_text(b));
        }
        if product_lower_is_safe(a, b, left) && product_lower_is_safe(a, b, right) {
            lower.insert(copy_text(a), copy_text(b));
        }
        proof {
            assert forall|x: Seq<char>, y: Seq<char>| #[trigger] upper.has(x, y) == (up0.has(x, y) || safe_candidate(*candidates, i + 1, x, y, *left, *right, true)) by {
                if safe_candidate(*candidates, i + 1, x, y, *left, *right, true) && !safe_candidate(*candidates, i as int, x, y, *left, *right, true) {
                    let k = choose|k: int| 0 <= k < i + 1 && (#[trigger] candidates.items@[k]).0@ == x && candidates.items@[k].1@ == y && upper_safe(x, y, *left) && upper_safe(x, y, *right);
                    assert(k == i);
                }
                if x == a@ && y == b@ && upper_safe(x, y, *left) && upper_safe(x, y, *right) {
                    assert(candidates.items@[i as int].0@ == x);
                }
            }
            assert forall|x: Seq<char>, y: Seq<char>| #[trigger] lower.has(x, y) == (low0.has(x, y) || safe_candidate(*candidates, i + 1, x, y, *left, *right, false)) by {
                if safe_candidate(*candidates, i + 1, x, y, *left, *right, false) && !safe_candidate(*candidates, i as int, x, y, *left, *right, false) {
                    let k = choose|k: int| 0 <= k < i + 1 && (#[trigger] candidates.items@[k]).0@ == x && candidates.items@[k].1@ == y && lower_safe(x, y, *left) && lower_safe(x, y, *right);
                    assert(k == i);
                }
                if x == a@ && y == b@ && lower_safe(x, y, *left) && lower_safe(x, y, *right) {
                    assert(candidates.items@[i as int].0@ == x);
                }
            }
        }
        i += 1;
    }
    proof {
        assert forall|x: Seq<char>, y: Seq<char>| #[trigger] upper.has(x, y) == (up0.has(x, y) || (candidates.has(x, y) && upper_safe(x, y, *left) && upper_safe(x, y, *right))) by {
            if candidates.has(x, y) && upper_safe(x, y, *left) && upper_safe(x, y, *right) {
                let k = choose|k: int| 0 <= k < candidates.items@.len() && (#[trigger] candidates.items@[k]).0@ == x && candidates.items@[k].1@ == y;
                assert(safe_candidate(*candidates, i as int, x, y, *left, *right, true));
            }
        }
        assert forall|x: Seq<char>, y: Seq<char>| #[trigger] lower.has(x, y) == (low0.has(x, y) || (candidates.has(x, y) && lower_safe(x, y, *left) && lower_safe(x, y, *right))) by {
            if candidates.has(x, y) && lower_safe(x, y, *left) && lower_safe(x, y, *right) {
                let k = choose|k: int| 0 <= k < candidates.items@.len() && (#[trigger] candidates.items@[k]).0@ == x && candidates.items@[k].1@ == y;
                assert(safe_candidate(*candidates, i as int, x, y, *left, *right, false));
            }
        }
    }
}

/// Every entry of `a` is in `b` with the same value.
fn counts_included(a: &TextMap<usize>, b: &TextMap<usize>) -> (r: bool)
    ensures
        r == values_within(*a, *b),
{
    let mut i: usize = 0;
    while i < a.len()
        invariant
            i <= a.size(),
            forall|j: int| 0 <= j < i ==> b.has_key(#[trigger] a.key_at(j)) && b.value_at(a.key_at(j)) == a.value_at(a.key_at(j)),
        decreases a.size() - i,
    {
        let (k, v) = a.entry_at(i);
        match b.get(k) {
            Some(w) => {
                if w != *v {
                    return false;
                }
            },
            None => {
                return false;
            },
        }
        i += 1;
    }
    proof {
        a.lemma_keys();
        assert forall|x: Seq<char>| #[trigger] a.has_key(x) implies b.has_key(x) && b.value_at(x) == a.value_at(x) by {
            let j = choose|j: int| 0 <= j < a.size() && #[trigger] a.key_at(j) == x;
        }
    }
    true
}

fn constants_included(a: &TextMap<i32>, b: &TextMap<i32>) -> (r: bool)
    ensures
        r == values_within(*a, *b),
{
    let mut i: usize = 0;
    while i < a.len()
        invariant
            i <= a.size(),
            forall|j: int| 0 <= j < i ==> b.has_key(#[trigger] a.key_at(j)) && b.value_at(a.key_at(j)) == a.value_at(a.key_at(j)),
        decreases a.size() - i,
    {
        let (k, v) = a.entry_at(i);
        match b.get(k) {
            Some(w) => {
                if w != *v {
                    return false;
                }
            },
            None => {
                return false;
            },
        }
        i += 1;
    }
    proof {
        a.lemma_keys();
        assert forall|x: Seq<char>| #[trigger] a.has_key(x) implies b.has_key(x) && b.value_at(x) == a.value_at(x) by {
            let j = choose|j: int| 0 <= j < a.size() && #[trigger] a.key_at(j) == x;
        }
    }
    true
}

fn ranges_included(a: &TextMap<IntInterval>, b: &TextMap<IntInterval>) -> (r: bool)
    ensures
        r == values_within(*a, *b),
{
    let mut i: usize = 0;
    while i < a.len()
        invariant
            i <= a.size(),
            forall|j: int| 0 <= j < i ==> b.has_key(#[trigger] a.key_at(j)) && b.value_at(a.key_at(j)) == a.value_at(a.key_at(j)),
        decreases a.size() - i,
    {
        let (k, v) = a.entry_at(i);
        match b.get(k) {
            Some(w) => {
                if w.min != v.min || w.max != v.max {
                    return false;
                }
            },
            None => {
                return false;
            },
        }
        i += 1;
    }
    proof {
        a.lemma_keys();
        assert forall|x: Seq<char>| #[trigger] a.has_key(x) implies b.has_key(x) && b.value_at(x) == a.value_at(x) by {
            let j = choose|j: int| 0 <= j < a.size() && #[trigger] a.key_at(j) == x;
        }
    }
    true
}

fn texts_included(a: &TextMap<Vec<char>>, b: &TextMap<Vec<char>>) -> (r: bool)
    ensures
        r == texts_within(*a, *b),
{
    let mut i: usize = 0;
    while i < a.len()
        invariant
            i <= a.size(),
            forall|j: int| 0 <= j < i ==> b.has_key(#[trigger] a.key_at(j)) && b.value_at(a.key_at(j))@ == a.value_at(a.key_at(j))@,
        decreases a.size() - i,
    {
        let (k, v) = a.entry_at(i);
        match b.get_ref(k) {
            Some(w) => {
                if !text_eq(w, v) {
                    return false;
                }
            },
            None => {
                return false;
            },
        }
        i += 1;
    }
    proof {
        a.lemma_keys();
        assert forall|x: Seq<char>| #[trigger] a.has_key(x) implies b.has_key(x) && b.value_at(x)@ == a.value_at(x)@ by {
            let j = choose|j: int| 0 <= j < a.size() && #[trigger] a.key_at(j) == x;
        }
    }
    true
}

/// The two states hold the same facts.
pub(crate) fn same_state(a: &AbstractState, b: &AbstractState) -> (r: bool)
    ensures
        r == same_facts(*a, *b),
{
    a.safe_pairs.subset_of(&b.safe_pairs) && b.safe_pairs.subset_of(&a.safe_pairs)
        && a.nonnegative.subset_of(&b.nonnegative) && b.nonnegative.subset_of(&a.nonnegative)
        && constants_included(&a.integer_constants, &b.integer_constants) && constants_included(
        &b.integer_constants,
        &a.integer_constants,
    ) && ranges_included(&a.integer_ranges, &b.integer_ranges) && ranges_included(
        &b.integer_ranges,
        &a.integer_ranges,
    ) && a.nonzero.subset_of(&b.nonzero) && b.nonzero.subset_of(&a.nonzero)
        && a.leq_pairs.subset_of(&b.leq_pairs) && b.leq_pairs.subset_of(&a.leq_pairs)
        && a.affine_upper_bounds.included_in(&b.affine_upper_bounds)
        && b.affine_upper_bounds.included_in(&a.affine_upper_bounds)
        && a.product_upper_safe.subset_of(&b.product_upper_safe)
        && b.product_upper_safe.subset_of(&a.product_upper_safe)
        && a.product_lower_safe.subset_of(&b.product_lower_safe)
        && b.product_lower_safe.subset_of(&a.product_lower_safe) && counts_included(
        &a.fixed_lengths,
        &b.fixed_lengths,
    ) && counts_included(&b.fixed_lengths, &a.fixed_lengths) && counts_included(
        &a.minimum_lengths,
        &b.minimum_lengths,
    ) && counts_included(&b.minimum_lengths, &a.minimum_lengths) && texts_included(
        &a.length_sources,
        &b.length_sources,
    ) && texts_included(&b.length_sources, &a.length_sources) && texts_included(
        &a.aliases,
        &b.aliases,
    ) && texts_included(&b.aliases, &a.aliases) && texts_included(
        &a.scalar_aliases,
        &b.scalar_aliases,
    ) && texts_included(&b.scalar_aliases, &a.scalar_aliases)
}

} // verus!
