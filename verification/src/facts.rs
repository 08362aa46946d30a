//! Finite sets and maps keyed by text, the building blocks of the abstract
//! state.
use vstd::prelude::*;
use crate::text::{copy_text, starts_with, text_eq, text_lt};

verus! {

/// A finite set of texts.
#[derive(Clone, Debug)]
pub struct TextSet {
    pub items: Vec<Vec<char>>,
}

impl TextSet {
    /// `k` is a member.
    pub open spec fn has(&self, k: Seq<char>) -> bool {
        exists|i: int| 0 <= i < self.items@.len() && (#[trigger] self.items@[i])@ == k
    }

    /// A copy of the set.
    pub fn duplicate(&self) -> (r: TextSet)
        ensures
            forall|k: Seq<char>| #[trigger] r.has(k) == self.has(k),
    {
        let mut items: Vec<Vec<char>> = Vec::new();
        let mut i: usize = 0;
        while i < self.items.len()
            invariant
                i <= self.items.len(),
                items@.len() == i,
                forall|j: int| 0 <= j < i ==> (#[trigger] items@[j])@ == self.items@[j]@,
            decreases self.items.len() - i,
        {
            items.push(copy_text(&self.items[i]));
            i += 1;
        }
        let r = TextSet { items };
        assert forall|k: Seq<char>| #[trigger] r.has(k) == self.has(k) by {
            if r.has(k) {
                let j = choose|j: int| 0 <= j < r.items@.len() && (#[trigger] r.items@[j])@ == k;
                assert(self.items@[j]@ == k);
            }
            if self.has(k) {
                let j = choose|j: int| 0 <= j < self.items@.len() && (#[trigger] self.items@[j])@ == k;
                assert(r.items@[j]@ == k);
            }
        }
        r
    }

    /// The empty set.
    pub fn new() -> (r: TextSet)
        ensures
            forall|k: Seq<char>| !r.has(k),
    {
        TextSet { items: Vec::new() }
    }

    /// Membership test.
    pub fn contains(&self, k: &Vec<char>) -> (r: bool)
        ensures
            r == self.has(k@),
    {
        let mut i: usize = 0;
        while i < self.items.len()
            invariant
                i <= self.items.len(),
                forall|j: int| 0 <= j < i ==> (#[trigger] self.items@[j])@ != k@,
            decreases self.items.len() - i,
        {
            if text_eq(&self.items[i], k) {
                return true;
            }
            i += 1;
        }
        false
    }

    /// Adds `k`.
    pub fn insert(&mut self, k: Vec<char>)
        ensures
            forall|x: Seq<char>| #[trigger] final(self).has(x) == (old(self).has(x) || x == k@),
    {
        if !self.contains(&k) {
            let ghost before = self.items@;
            self.items.push(k);
            assert forall|x: Seq<char>| #[trigger] self.has(x) == (old(self).has(x) || x == k@) by {
                if self.has(x) {
                    let i = choose|i: int|
                        0 <= i < self.items@.len() && (#[trigger] self.items@[i])@ == x;
                    if i < before.len() {
                        assert(before[i] == self.items@[i]);
                    }
                }
                if old(self).has(x) {
                    let i = choose|i: int| 0 <= i < before.len() && (#[trigger] before[i])@ == x;
                    assert(self.items@[i] == before[i]);
                }
                if x == k@ {
                    assert(self.items@[before.len() as int]@ == x);
                }
            }
        }
    }

    /// Removes `k`.
    pub fn remove(&mut self, k: &Vec<char>)
        ensures
            forall|x: Seq<char>| #[trigger] final(self).has(x) == (old(self).has(x) && x != k@),
    {
        let mut out: Vec<Vec<char>> = Vec::new();
        let mut i: usize = 0;
        while i < self.items.len()
            invariant
                i <= self.items.len(),
                forall|m: int|
                    0 <= m < out@.len() ==> self.has((#[trigger] out@[m])@) && out@[m]@ != k@,
                forall|j: int|
                    0 <= j < i && (#[trigger] self.items@[j])@ != k@ ==> exists|m: int|
                        0 <= m < out@.len() && (#[trigger] out@[m])@ == self.items@[j]@,
            decreases self.items.len() - i,
        {
            if !text_eq(&self.items[i], k) {
                let ghost before = out@;
                out.push(copy_text(&self.items[i]));
                assert(self.has(self.items@[i as int]@));
                assert forall|j: int|
                    0 <= j < i + 1 && (#[trigger] self.items@[j])@ != k@ implies exists|m: int|
                        0 <= m < out@.len() && (#[trigger] out@[m])@ == self.items@[j]@ by {
                    if j < i {
                        let m = choose|m: int|
                            0 <= m < before.len() && (#[trigger] before[m])@ == self.items@[j]@;
                        assert(out@[m] == before[m]);
                    } else {
                        assert(out@[before.len() as int]@ == self.items@[j]@);
                    }
                }
            }
            i += 1;
        }
        let ghost old_set = *self;
        self.items = out;
        assert forall|x: Seq<char>| #[trigger] self.has(x) == (old_set.has(x) && x != k@) by {
            if self.has(x) {
                let m = choose|m: int| 0 <= m < self.items@.len() && (#[trigger] self.items@[m])@ == x;
            }
            if old_set.has(x) && x != k@ {
                let j = choose|j: int|
                    0 <= j < old_set.items@.len() && (#[trigger] old_set.items@[j])@ == x;
            }
        }
    }

    /// The members of both sets.
    pub fn intersect(&self, other: &TextSet) -> (r: TextSet)
        ensures
            forall|x: Seq<char>| #[trigger] r.has(x) == (self.has(x) && other.has(x)),
    {
        let mut out = TextSet::new();
        let mut i: usize = 0;
        while i < self.items.len()
            invariant
                i <= self.items.len(),
                forall|x: Seq<char>|
                    #[trigger] out.has(x) == (other.has(x) && exists|j: int|
                        0 <= j < i && (#[trigger] self.items@[j])@ == x),
            decreases self.items.len() - i,
        {
            if other.contains(&self.items[i]) {
                out.insert(copy_text(&self.items[i]));
            }
            proof {
                assert forall|x: Seq<char>|
                    #[trigger] out.has(x) == (other.has(x) && exists|j: int|
                        0 <= j < i + 1 && (#[trigger] self.items@[j])@ == x) by {
                    if exists|j: int| 0 <= j < i + 1 && (#[trigger] self.items@[j])@ == x {
                        let j = choose|j: int| 0 <= j < i + 1 && (#[trigger] self.items@[j])@ == x;
                        if j < i {
                            assert(exists|j: int| 0 <= j < i && (#[trigger] self.items@[j])@ == x);
                        }
                    }
                }
            }
            i += 1;
        }
        out
    }

    /// Adds every member of `other`.
    pub fn extend(&mut self, other: &TextSet)
        ensures
            forall|x: Seq<char>| #[trigger] final(self).has(x) == (old(self).has(x) || other.has(x)),
    {
        let mut i: usize = 0;
        while i < other.items.len()
            invariant
                i <= other.items.len(),
                forall|x: Seq<char>|
                    #[trigger] self.has(x) == (old(self).has(x) || exists|j: int|
                        0 <= j < i && (#[trigger] other.items@[j])@ == x),
            decreases other.items.len() - i,
        {
            self.insert(copy_text(&other.items[i]));
            proof {
                assert forall|x: Seq<char>|
                    #[trigger] self.has(x) == (old(self).has(x) || exists|j: int|
                        0 <= j < i + 1 && (#[trigger] other.items@[j])@ == x) by {
                    if exists|j: int| 0 <= j < i + 1 && (#[trigger] other.items@[j])@ == x {
                        let j = choose|j: int| 0 <= j < i + 1 && (#[trigger] other.items@[j])@ == x;
                        if j < i {
                            assert(exists|j: int| 0 <= j < i && (#[trigger] other.items@[j])@ == x);
                        }
                    }
                }
            }
            i += 1;
        }
    }

    /// True when every member of `self` is a member of `other`.
    pub fn subset_of(&self, other: &TextSet) -> (r: bool)
        ensures
            r == forall|x: Seq<char>| self.has(x) ==> #[trigger] other.has(x),
    {
        let mut i: usize = 0;
        while i < self.items.len()
            invariant
                i <= self.items.len(),
                forall|j: int| 0 <= j < i ==> other.has((#[trigger] self.items@[j])@),
            decreases self.items.len() - i,
        {
            if !other.contains(&self.items[i]) {
                assert(self.has(self.items@[i as int]@));
                return false;
            }
            i += 1;
        }
        assert forall|x: Seq<char>| self.has(x) implies #[trigger] other.has(x) by {
            let j = choose|j: int| 0 <= j < self.items@.len() && (#[trigger] self.items@[j])@ == x;
        }
        true
    }
}

/// A finite set of text pairs.
#[derive(Clone, Debug)]
pub struct PairSet {
    pub items: Vec<(Vec<char>, Vec<char>)>,
}

impl PairSet {
    /// `(a, b)` is a member.
    pub open spec fn has(&self, a: Seq<char>, b: Seq<char>) -> bool {
        exists|i: int|
            0 <= i < self.items@.len() && (#[trigger] self.items@[i]).0@ == a && self.items@[i].1@
                == b
    }

    /// A copy of the set.
    pub fn duplicate(&self) -> (r: PairSet)
        ensures
            forall|a: Seq<char>, b: Seq<char>| #[trigger] r.has(a, b) == self.has(a, b),
    {
        let mut items: Vec<(Vec<char>, Vec<char>)> = Vec::new();
        let mut i: usize = 0;
        while i < self.items.len()
            invariant
                i <= self.items.len(),
                items@.len() == i,
                forall|j: int| 0 <= j < i ==> (#[trigger] items@[j]).0@ == self.items@[j].0@ && items@[j].1@
                    == self.items@[j].1@,
            decreases self.items.len() - i,
        {
            items.push((copy_text(&self.items[i].0), copy_text(&self.items[i].1)));
            i += 1;
        }
        let r = PairSet { items };
        assert forall|a: Seq<char>, b: Seq<char>| #[trigger] r.has(a, b) == self.has(a, b) by {
            if r.has(a, b) {
                let j = choose|j: int| 0 <= j < r.items@.len() && (#[trigger] r.items@[j]).0@ == a && r.items@[j].1@ == b;
                assert(self.items@[j].0@ == a);
            }
            if self.has(a, b) {
                let j = choose|j: int| 0 <= j < self.items@.len() && (#[trigger] self.items@[j]).0@ == a && self.items@[j].1@ == b;
                assert(r.items@[j].0@ == a);
            }
        }
        r
    }

    /// The empty set.
    pub fn new() -> (r: PairSet)
        ensures
            forall|a: Seq<char>, b: Seq<char>| !r.has(a, b),
    {
        PairSet { items: Vec::new() }
    }

    /// Membership test.
    pub fn contains(&self, a: &Vec<char>, b: &Vec<char>) -> (r: bool)
        ensures
            r == self.has(a@, b@),
    {
        let mut i: usize = 0;
        while i < self.items.len()
            invariant
                i <= self.items.len(),
                forall|j: int|
                    0 <= j < i ==> !((#[trigger] self.items@[j]).0@ == a@ && self.items@[j].1@
                        == b@),
            decreases self.items.len() - i,
        {
            if text_eq(&self.items[i].0, a) && text_eq(&self.items[i].1, b) {
                return true;
            }
            i += 1;
        }
        false
    }

    /// Adds `(a, b)`.
    pub fn insert(&mut self, a: Vec<char>, b: Vec<char>)
        ensures
            forall|x: Seq<char>, y: Seq<char>|
                #[trigger] final(self).has(x, y) == (old(self).has(x, y) || (x == a@ && y == b@)),
    {
        if !self.contains(&a, &b) {
            let ghost before = self.items@;
            let ghost (av, bv) = (a@, b@);
            self.items.push((a, b));
            assert forall|x: Seq<char>, y: Seq<char>|
                #[trigger] self.has(x, y) == (old(self).has(x, y) || (x == av && y == bv)) by {
                if self.has(x, y) {
                    let i = choose|i: int|
                        0 <= i < self.items@.len() && (#[trigger] self.items@[i]).0@ == x
                            && self.items@[i].1@ == y;
                    if i < before.len() {
                        assert(before[i] == self.items@[i]);
                    }
                }
                if old(self).has(x, y) {
                    let i = choose|i: int|
                        0 <= i < before.len() && (#[trigger] before[i]).0@ == x && before[i].1@
                            == y;
                    assert(self.items@[i] == before[i]);
                }
                if x == av && y == bv {
                    assert(self.items@[before.len() as int].0@ == x);
                }
            }
        }
    }

    /// Keeps the pairs for which `drop_pair` is false.
    fn retain_where(&mut self, name: &Vec<char>, mode: u8)
        ensures
            forall|x: Seq<char>, y: Seq<char>|
                #[trigger] final(self).has(x, y) == (old(self).has(x, y) && !pair_dropped(
                    x,
                    y,
                    name@,
                    mode,
                )),
    {
        let mut out: Vec<(Vec<char>, Vec<char>)> = Vec::new();
        let mut i: usize = 0;
        while i < self.items.len()
            invariant
                i <= self.items.len(),
                forall|m: int|
                    0 <= m < out@.len() ==> self.has((#[trigger] out@[m]).0@, out@[m].1@)
                        && !pair_dropped(out@[m].0@, out@[m].1@, name@, mode),
                forall|j: int|
                    0 <= j < i && !pair_dropped(
                        (#[trigger] self.items@[j]).0@,
                        self.items@[j].1@,
                        name@,
                        mode,
                    ) ==> exists|m: int|
                        0 <= m < out@.len() && (#[trigger] out@[m]).0@ == self.items@[j].0@
                            && out@[m].1@ == self.items@[j].1@,
            decreases self.items.len() - i,
        {
            let drop = pair_is_dropped(&self.items[i].0, &self.items[i].1, name, mode);
            if !drop {
                let ghost before = out@;
                out.push((copy_text(&self.items[i].0), copy_text(&self.items[i].1)));
                assert(self.has(self.items@[i as int].0@, self.items@[i as int].1@));
                assert forall|j: int|
                    0 <= j < i + 1 && !pair_dropped(
                        (#[trigger] self.items@[j]).0@,
                        self.items@[j].1@,
                        name@,
                        mode,
                    ) implies exists|m: int|
                        0 <= m < out@.len() && (#[trigger] out@[m]).0@ == self.items@[j].0@
                            && out@[m].1@ == self.items@[j].1@ by {
                    if j < i {
                        let m = choose|m: int|
                            0 <= m < before.len() && (#[trigger] before[m]).0@
                                == self.items@[j].0@ && before[m].1@ == self.items@[j].1@;
                        assert(out@[m] == before[m]);
                    } else {
                        assert(out@[before.len() as int].0@ == self.items@[j].0@);
                    }
                }
            }
            i += 1;
        }
        let ghost old_set = *self;
        self.items = out;
        assert forall|x: Seq<char>, y: Seq<char>|
            #[trigger] self.has(x, y) == (old_set.has(x, y) && !pair_dropped(x, y, name@, mode)) by {
            if self.has(x, y) {
                let m = choose|m: int|
                    0 <= m < self.items@.len() && (#[trigger] self.items@[m]).0@ == x
                        && self.items@[m].1@ == y;
            }
            if old_set.has(x, y) && !pair_dropped(x, y, name@, mode) {
                let j = choose|j: int|
                    0 <= j < old_set.items@.len() && (#[trigger] old_set.items@[j]).0@ == x
                        && old_set.items@[j].1@ == y;
            }
        }
    }

    /// Drops every pair that mentions `name` on either side.
    pub fn forget_name(&mut self, name: &Vec<char>)
        ensures
            forall|x: Seq<char>, y: Seq<char>|
                #[trigger] final(self).has(x, y) == (old(self).has(x, y) && x != name@ && y
                    != name@),
    {
        self.retain_where(name, 0);
    }

    /// Drops every pair whose second side is `name`.
    pub fn forget_second(&mut self, name: &Vec<char>)
        ensures
            forall|x: Seq<char>, y: Seq<char>|
                #[trigger] final(self).has(x, y) == (old(self).has(x, y) && y != name@),
    {
        self.retain_where(name, 1);
    }

    /// Drops every pair whose first side starts with `prefix`.
    pub fn forget_first_prefix(&mut self, prefix: &Vec<char>)
        ensures
            forall|x: Seq<char>, y: Seq<char>|
                #[trigger] final(self).has(x, y) == (old(self).has(x, y) && !has_prefix(
                    x,
                    prefix@,
                )),
    {
        self.retain_where(prefix, 2);
    }

    /// Drops every pair whose first side is `name` or starts with `prefix`.
    pub fn forget_first_or_prefix(&mut self, name: &Vec<char>, prefix: &Vec<char>)
        ensures
            forall|x: Seq<char>, y: Seq<char>|
                #[trigger] final(self).has(x, y) == (old(self).has(x, y) && x != name@
                    && !has_prefix(x, prefix@)),
    {
        self.retain_where(name, 3);
        self.retain_where(prefix, 2);
    }

    /// The pairs in both sets.
    pub fn intersect(&self, other: &PairSet) -> (r: PairSet)
        ensures
            forall|x: Seq<char>, y: Seq<char>|
                #[trigger] r.has(x, y) == (self.has(x, y) && other.has(x, y)),
    {
        let mut out = PairSet::new();
        let mut i: usize = 0;
        while i < self.items.len()
            invariant
                i <= self.items.len(),
                forall|x: Seq<char>, y: Seq<char>|
                    #[trigger] out.has(x, y) == (other.has(x, y) && exists|j: int|
                        0 <= j < i && (#[trigger] self.items@[j]).0@ == x && self.items@[j].1@
                            == y),
            decreases self.items.len() - i,
        {
            if other.contains(&self.items[i].0, &self.items[i].1) {
                out.insert(copy_text(&self.items[i].0), copy_text(&self.items[i].1));
            }
            proof {
                assert forall|x: Seq<char>, y: Seq<char>|
                    #[trigger] out.has(x, y) == (other.has(x, y) && exists|j: int|
                        0 <= j < i + 1 && (#[trigger] self.items@[j]).0@ == x && self.items@[j].1@
                            == y) by {
                    if exists|j: int|
                        0 <= j < i + 1 && (#[trigger] self.items@[j]).0@ == x && self.items@[j].1@
                            == y {
                        let j = choose|j: int|
                            0 <= j < i + 1 && (#[trigger] self.items@[j]).0@ == x
                                && self.items@[j].1@ == y;
                        if j < i {
                            assert(exists|j: int|
                                0 <= j < i && (#[trigger] self.items@[j]).0@ == x
                                    && self.items@[j].1@ == y);
                        }
                    }
                }
            }
            i += 1;
        }
        out
    }

    /// True when every pair of `self` is in `other`.
    pub fn subset_of(&self, other: &PairSet) -> (r: bool)
        ensures
            r == forall|x: Seq<char>, y: Seq<char>| self.has(x, y) ==> #[trigger] other.has(x, y),
    {
        let mut i: usize = 0;
        while i < self.items.len()
            invariant
                i <= self.items.len(),
                forall|j: int|
                    0 <= j < i ==> other.has((#[trigger] self.items@[j]).0@, self.items@[j].1@),
            decreases self.items.len() - i,
        {
            if !other.contains(&self.items[i].0, &self.items[i].1) {
                assert(self.has(self.items@[i as int].0@, self.items@[i as int].1@));
                return false;
            }
            i += 1;
        }
        assert forall|x: Seq<char>, y: Seq<char>| self.has(x, y) implies #[trigger] other.has(
            x,
            y,
        ) by {
            let j = choose|j: int|
                0 <= j < self.items@.len() && (#[trigger] self.items@[j]).0@ == x
                    && self.items@[j].1@ == y;
        }
        true
    }
}

/// `prefix` begins `x`.
pub open spec fn has_prefix(x: Seq<char>, prefix: Seq<char>) -> bool {
    prefix.len() <= x.len() && x.take(prefix.len() as int) == prefix
}

/// Which pairs a filter of `PairSet` drops: mode 0 drops pairs mentioning
/// `name`, mode 1 those whose second side is `name`, mode 2 those whose first
/// side starts with `name`, mode 3 those whose first side is `name`.
pub open spec fn pair_dropped(x: Seq<char>, y: Seq<char>, name: Seq<char>, mode: u8) -> bool {
    if mode == 0 {
        x == name || y == name
    } else if mode == 1 {
        y == name
    } else if mode == 2 {
        has_prefix(x, name)
    } else {
        x == name
    }
}

fn pair_is_dropped(x: &Vec<char>, y: &Vec<char>, name: &Vec<char>, mode: u8) -> (r: bool)
    ensures
        r == pair_dropped(x@, y@, name@, mode),
{
    if mode == 0 {
        text_eq(x, name) || text_eq(y, name)
    } else if mode == 1 {
        text_eq(y, name)
    } else if mode == 2 {
        starts_with(x, name)
    } else {
        text_eq(x, name)
    }
}

/// A finite map from texts to values; each key occurs at most once.
#[derive(Debug)]
pub struct TextMap<V> {
    entries: Vec<(Vec<char>, V)>,
}

impl<V> TextMap<V> {
    /// Keys are distinct.
    #[verifier::type_invariant]
    spec fn wf(&self) -> bool {
        forall|i: int, j: int|
            0 <= i < j < self.entries@.len() ==> (#[trigger] self.entries@[i]).0@
                != (#[trigger] self.entries@[j]).0@
    }

    /// `k` has an entry.
    pub closed spec fn has_key(&self, k: Seq<char>) -> bool {
        exists|i: int| 0 <= i < self.entries@.len() && (#[trigger] self.entries@[i]).0@ == k
    }

    /// The value at `k`, for a key that has an entry.
    pub closed spec fn value_at(&self, k: Seq<char>) -> V
        recommends
            self.has_key(k),
    {
        let i = choose|i: int| 0 <= i < self.entries@.len() && (#[trigger] self.entries@[i]).0@ == k;
        self.entries@[i].1
    }

    /// The number of entries.
    pub closed spec fn size(&self) -> nat {
        self.entries@.len()
    }

    /// The key of the `i`-th entry, in insertion order.
    pub closed spec fn key_at(&self, i: int) -> Seq<char> {
        self.entries@[i].0@
    }

    /// Every key is the key of some entry.
    pub proof fn lemma_keys(&self)
        ensures
            forall|k: Seq<char>| #[trigger] self.has_key(k) ==> exists|i: int| 0 <= i < self.size() && #[trigger] self.key_at(i) == k,
    {
        assert forall|k: Seq<char>| #[trigger] self.has_key(k) implies exists|i: int| 0 <= i < self.size() && #[trigger] self.key_at(i) == k by {
            let i = choose|i: int| 0 <= i < self.entries@.len() && (#[trigger] self.entries@[i]).0@ == k;
            assert(self.key_at(i) == k);
        }
    }

    /// The number of entries.
    pub fn len(&self) -> (r: usize)
        ensures
            r == self.size(),
    {
        self.entries.len()
    }

    /// The `i`-th entry, in insertion order.
    pub fn entry_at(&self, i: usize) -> (r: (&Vec<char>, &V))
        requires
            i < self.size(),
        ensures
            self.has_key(r.0@),
            self.value_at(r.0@) == *r.1,
            r.0@ == self.key_at(i as int),
    {
        proof {
            use_type_invariant(self);
            let k = self.entries@[i as int].0@;
            let c = choose|c: int| 0 <= c < self.entries@.len() && (#[trigger] self.entries@[c]).0@ == k;
            if c != i {
                if c < i {
                    assert(self.entries@[c].0@ != self.entries@[i as int].0@);
                } else {
                    assert(self.entries@[i as int].0@ != self.entries@[c].0@);
                }
            }
        }
        (&self.entries[i].0, &self.entries[i].1)
    }

    /// The empty map.
    pub fn new() -> (r: TextMap<V>)
        ensures
            forall|k: Seq<char>| !r.has_key(k),
    {
        TextMap { entries: Vec::new() }
    }

    /// The index of `k`'s entry.
    fn position(&self, k: &Vec<char>) -> (r: Option<usize>)
        ensures
            r is Some <==> self.has_key(k@),
            r matches Some(i) ==> i < self.entries@.len() && self.entries@[i as int].0@ == k@
                && self.value_at(k@) == self.entries@[i as int].1,
    {
        proof {
            use_type_invariant(self);
        }
        let mut i: usize = 0;
        while i < self.entries.len()
            invariant
                i <= self.entries.len(),
                forall|j: int| 0 <= j < i ==> (#[trigger] self.entries@[j]).0@ != k@,
            decreases self.entries.len() - i,
        {
            if text_eq(&self.entries[i].0, k) {
                proof {
                    let c = choose|c: int|
                        0 <= c < self.entries@.len() && (#[trigger] self.entries@[c]).0@ == k@;
                    if c != i {
                        if c < i {
                            assert(self.entries@[c].0@ != self.entries@[i as int].0@);
                        } else {
                            assert(self.entries@[i as int].0@ != self.entries@[c].0@);
                        }
                    }
                }
                return Some(i);
            }
            i += 1;
        }
        None
    }

    /// The value at `k`, by reference.
    pub fn get_ref(&self, k: &Vec<char>) -> (r: Option<&V>)
        ensures
            r is Some <==> self.has_key(k@),
            r matches Some(v) ==> *v == self.value_at(k@),
    {
        match self.position(k) {
            Some(i) => Some(&self.entries[i].1),
            None => None,
        }
    }

    /// True when `k` has an entry.
    pub fn contains_key(&self, k: &Vec<char>) -> (r: bool)
        ensures
            r == self.has_key(k@),
    {
        self.position(k).is_some()
    }

    /// Sets the value at `k`.
    pub fn insert(&mut self, k: Vec<char>, v: V)
        ensures
            final(self).has_key(k@),
            final(self).value_at(k@) == v,
            forall|x: Seq<char>|
                x != k@ ==> (#[trigger] final(self).has_key(x) == old(self).has_key(x)),
            forall|x: Seq<char>|
                x != k@ && old(self).has_key(x) ==> #[trigger] final(self).value_at(x)
                    == old(self).value_at(x),
    {
        proof {
            use_type_invariant(&*self);
        }
        let ghost kv = k@;
        match self.position(&k) {
            Some(i) => {
                let ghost before = self.entries@;
                proof {
                    let after = before.update(i as int, (k, v));
                    assert forall|a: int, b: int| 0 <= a < b < after.len() implies (#[trigger] after[a]).0@
                        != (#[trigger] after[b]).0@ by {
                        assert(before[a].0@ != before[b].0@);
                    }
                }
                let mut es: Vec<(Vec<char>, V)> = Vec::new();
                std::mem::swap(&mut es, &mut self.entries);
                es.set(i, (k, v));
                self.entries = es;
                proof {
                    assert(self.entries@[i as int].0@ == kv);
                    assert forall|x: Seq<char>| x != kv implies (#[trigger] self.has_key(x)
                        == old(self).has_key(x)) by {
                        if self.has_key(x) {
                            let c = choose|c: int|
                                0 <= c < self.entries@.len() && (#[trigger] self.entries@[c]).0@
                                    == x;
                            assert(before[c] == self.entries@[c]);
                        }
                        if old(self).has_key(x) {
                            let c = choose|c: int|
                                0 <= c < before.len() && (#[trigger] before[c]).0@ == x;
                            assert(before[c] == self.entries@[c]);
                        }
                    }
                    assert forall|x: Seq<char>| x != kv && old(self).has_key(x) implies #[trigger] self.value_at(x)
                        == old(self).value_at(x) by {
                        assert(self.has_key(x));
                        let c = choose|c: int|
                            0 <= c < self.entries@.len() && (#[trigger] self.entries@[c]).0@ == x;
                        let d = choose|d: int| 0 <= d < before.len() && (#[trigger] before[d]).0@ == x;
                        assert(c != i);
                        assert(before[c] == self.entries@[c]);
                        if c != d {
                            if c < d {
                                assert(before[c].0@ != before[d].0@);
                            } else {
                                assert(before[d].0@ != before[c].0@);
                            }
                        }
                    }
                    let c = choose|c: int|
                        0 <= c < self.entries@.len() && (#[trigger] self.entries@[c]).0@ == kv;
                    if c != i {
                        assert(before[c] == self.entries@[c]);
                        if c < i {
                            assert(before[c].0@ != before[i as int].0@);
                        } else {
                            assert(before[i as int].0@ != before[c].0@);
                        }
                    }
                }
            },
            None => {
                let ghost before = self.entries@;
                proof {
                    let after = before.push((k, v));
                    assert forall|a: int, b: int| 0 <= a < b < after.len() implies (#[trigger] after[a]).0@
                        != (#[trigger] after[b]).0@ by {
                        if b == before.len() {
                            assert(before[a].0@ != kv);
                        } else {
                            assert(before[a].0@ != before[b].0@);
                        }
                    }
                }
                let mut es: Vec<(Vec<char>, V)> = Vec::new();
                std::mem::swap(&mut es, &mut self.entries);
                es.push((k, v));
                self.entries = es;
                proof {
                    let n = before.len() as int;
                    assert(self.entries@[n].0@ == kv);
                    assert forall|x: Seq<char>| x != kv implies (#[trigger] self.has_key(x)
                        == old(self).has_key(x)) by {
                        if self.has_key(x) {
                            let c = choose|c: int|
                                0 <= c < self.entries@.len() && (#[trigger] self.entries@[c]).0@
                                    == x;
                            assert(before[c] == self.entries@[c]);
                        }
                        if old(self).has_key(x) {
                            let c = choose|c: int|
                                0 <= c < before.len() && (#[trigger] before[c]).0@ == x;
                            assert(before[c] == self.entries@[c]);
                        }
                    }
                    assert forall|x: Seq<char>| x != kv && old(self).has_key(x) implies #[trigger] self.value_at(x)
                        == old(self).value_at(x) by {
                        assert(self.has_key(x));
                        let c = choose|c: int|
                            0 <= c < self.entries@.len() && (#[trigger] self.entries@[c]).0@ == x;
                        let d = choose|d: int| 0 <= d < before.len() && (#[trigger] before[d]).0@ == x;
                        assert(before[d] == self.entries@[d]);
                        if c != d {
                            if c < d {
                                assert(self.entries@[c].0@ != self.entries@[d].0@);
                            } else {
                                assert(self.entries@[d].0@ != self.entries@[c].0@);
                            }
                        }
                    }
                    let c = choose|c: int|
                        0 <= c < self.entries@.len() && (#[trigger] self.entries@[c]).0@ == kv;
                    if c != n {
                        assert(self.entries@[c].0@ != self.entries@[n].0@);
                    }
                }
            },
        }
    }

    /// Drops the entries whose key `key_dropped` selects.
    fn retain_keys(&mut self, name: &Vec<char>, mode: u8)
        ensures
            forall|x: Seq<char>|
                #[trigger] final(self).has_key(x) == (old(self).has_key(x) && !key_dropped(
                    x,
                    name@,
                    mode,
                )),
            forall|x: Seq<char>|
                #[trigger] final(self).has_key(x) ==> final(self).value_at(x) == old(
                    self,
                ).value_at(x),
    {
        proof {
            use_type_invariant(&*self);
        }
        let ghost orig = *self;
        let mut rest: Vec<(Vec<char>, V)> = Vec::new();
        std::mem::swap(&mut rest, &mut self.entries);
        let mut out: TextMap<V> = TextMap::new();
        let ghost start = rest@;
        let mut i: usize = 0;
        proof {
            assert(start.len() == rest.len());
            assert(start.skip(0) =~= start);
        }
        while rest.len() > 0
            invariant
                orig.entries@ == start,
                orig.wf(),
                start.len() <= usize::MAX,
                rest@ == start.skip(i as int),
                i <= start.len(),
                forall|x: Seq<char>|
                    #[trigger] out.has_key(x) == (!key_dropped(x, name@, mode) && exists|j: int|
                        0 <= j < i && (#[trigger] start[j]).0@ == x),
                forall|x: Seq<char>|
                    #[trigger] out.has_key(x) ==> out.value_at(x) == orig.value_at(x),
            decreases rest.len(),
        {
            let entry = rest.remove(0);
            proof {
                assert(entry == start[i as int]);
                assert(rest@ =~= start.skip(i + 1));
                assert(i < start.len());
            }
            let ghost before = out;
            let drop = key_is_dropped(&entry.0, name, mode);
            if !drop {
                let ghost key = entry.0@;
                proof {
                    assert(orig.has_key(key));
                    let c = choose|c: int|
                        0 <= c < orig.entries@.len() && (#[trigger] orig.entries@[c]).0@ == key;
                    if c != i {
                        if c < i {
                            assert(start[c].0@ != start[i as int].0@);
                        } else {
                            assert(start[i as int].0@ != start[c].0@);
                        }
                    }
                    assert(orig.value_at(key) == entry.1);
                }
                out.insert(entry.0, entry.1);
            }
            proof {
                assert forall|x: Seq<char>|
                    #[trigger] out.has_key(x) == (!key_dropped(x, name@, mode) && exists|j: int|
                        0 <= j < i + 1 && (#[trigger] start[j]).0@ == x) by {
                    if exists|j: int| 0 <= j < i + 1 && (#[trigger] start[j]).0@ == x {
                        let j = choose|j: int| 0 <= j < i + 1 && (#[trigger] start[j]).0@ == x;
                        if j < i {
                            assert(exists|j: int| 0 <= j < i && (#[trigger] start[j]).0@ == x);
                        }
                    }
                    if before.has_key(x) {
                        let j = choose|j: int| 0 <= j < i && (#[trigger] start[j]).0@ == x;
                        assert(0 <= j < i + 1 && start[j].0@ == x);
                    }
                }
            }
            i += 1;
        }
        proof {
            assert(i == start.len());
            assert forall|x: Seq<char>|
                #[trigger] out.has_key(x) == (orig.has_key(x) && !key_dropped(x, name@, mode)) by {
                if orig.has_key(x) {
                    let c = choose|c: int|
                        0 <= c < orig.entries@.len() && (#[trigger] orig.entries@[c]).0@ == x;
                    assert(start[c].0@ == x);
                }
                if out.has_key(x) {
                    let j = choose|j: int| 0 <= j < i && (#[trigger] start[j]).0@ == x;
                    assert(orig.entries@[j].0@ == x);
                }
            }
        }
        *self = out;
    }

    /// Drops the entry of `k`.
    pub fn remove(&mut self, k: &Vec<char>)
        ensures
            forall|x: Seq<char>| #[trigger] final(self).has_key(x) == (old(self).has_key(x) && x != k@),
            forall|x: Seq<char>|
                #[trigger] final(self).has_key(x) ==> final(self).value_at(x) == old(
                    self,
                ).value_at(x),
    {
        self.retain_keys(k, 0);
    }

    /// Drops the entries whose key starts with `prefix`.
    pub fn remove_prefixed(&mut self, prefix: &Vec<char>)
        ensures
            forall|x: Seq<char>|
                #[trigger] final(self).has_key(x) == (old(self).has_key(x) && !has_prefix(x, prefix@)),
            forall|x: Seq<char>|
                #[trigger] final(self).has_key(x) ==> final(self).value_at(x) == old(
                    self,
                ).value_at(x),
    {
        self.retain_keys(prefix, 1);
    }

    /// Drops the entries whose key starts with `prefix`, except that of `keep`.
    pub fn remove_prefixed_except(&mut self, keep: &Vec<char>, prefix: &Vec<char>)
        ensures
            forall|x: Seq<char>|
                #[trigger] final(self).has_key(x) == (old(self).has_key(x) && (x == keep@
                    || !has_prefix(x, prefix@))),
            forall|x: Seq<char>|
                #[trigger] final(self).has_key(x) ==> final(self).value_at(x) == old(
                    self,
                ).value_at(x),
    {
        if has_prefix_exec(keep, prefix) {
            self.retain_keys_except(keep, prefix);
        } else {
            self.retain_keys(prefix, 1);
        }
    }

    fn retain_keys_except(&mut self, keep: &Vec<char>, prefix: &Vec<char>)
        requires
            has_prefix(keep@, prefix@),
        ensures
            forall|x: Seq<char>|
                #[trigger] final(self).has_key(x) == (old(self).has_key(x) && (x == keep@
                    || !has_prefix(x, prefix@))),
            forall|x: Seq<char>|
                #[trigger] final(self).has_key(x) ==> final(self).value_at(x) == old(
                    self,
                ).value_at(x),
    {
        let kept = self.position(keep);
        match kept {
            None => {
                self.retain_keys(prefix, 1);
            },
            Some(i) => {
                proof {
                    use_type_invariant(&*self);
                }
                let ghost before = *self;
                let entry_key = copy_text(&self.entries[i].0);
                proof {
                    let after = before.entries@.remove(i as int);
                    assert forall|a: int, b: int|
                        0 <= a < b < after.len() implies (#[trigger] after[a]).0@
                            != (#[trigger] after[b]).0@ by {
                        let a2 = if a < i { a } else { a + 1 };
                        let b2 = if b < i { b } else { b + 1 };
                        assert(after[a] == before.entries@[a2]);
                        assert(after[b] == before.entries@[b2]);
                    }
                }
                let mut es: Vec<(Vec<char>, V)> = Vec::new();
                std::mem::swap(&mut es, &mut self.entries);
                let entry = es.remove(i);
                self.entries = es;
                let ghost mid = *self;
                self.retain_keys(prefix, 1);
                let ghost after = *self;
                proof {
                    assert forall|x: Seq<char>| #[trigger] mid.has_key(x) == (before.has_key(x) && x != keep@) by {
                        if mid.has_key(x) {
                            let c = choose|c: int| 0 <= c < mid.entries@.len() && (#[trigger] mid.entries@[c]).0@ == x;
                            let c2 = if c < i { c } else { c + 1 };
                            assert(mid.entries@[c] == before.entries@[c2]);
                            if x == keep@ {
                                assert(before.entries@[i as int].0@ == keep@);
                                if c2 < i {
                                    assert(before.entries@[c2].0@ != before.entries@[i as int].0@);
                                } else {
                                    assert(before.entries@[i as int].0@ != before.entries@[c2].0@);
                                }
                            }
                        }
                        if before.has_key(x) && x != keep@ {
                            let c = choose|c: int| 0 <= c < before.entries@.len() && (#[trigger] before.entries@[c]).0@ == x;
                            assert(c != i);
                            let c2 = if c < i { c } else { c - 1 };
                            assert(mid.entries@[c2] == before.entries@[c]);
                        }
                    }
                    assert forall|x: Seq<char>| #[trigger] mid.has_key(x) implies mid.value_at(x) == before.value_at(x) by {
                        let c = choose|c: int| 0 <= c < mid.entries@.len() && (#[trigger] mid.entries@[c]).0@ == x;
                        let c2 = if c < i { c } else { c + 1 };
                        assert(mid.entries@[c] == before.entries@[c2]);
                        let d = choose|d: int| 0 <= d < before.entries@.len() && (#[trigger] before.entries@[d]).0@ == x;
                        if d != c2 {
                            if d < c2 {
                                assert(before.entries@[d].0@ != before.entries@[c2].0@);
                            } else {
                                assert(before.entries@[c2].0@ != before.entries@[d].0@);
                            }
                        }
                    }
                }
                self.insert(entry_key, entry.1);
                proof {
                    assert(entry.0@ == keep@);
                    assert(before.value_at(keep@) == entry.1);
                }
            },
        }
    }
}

impl TextMap<Vec<char>> {
    /// A copy of the map.
    pub fn duplicate_texts(&self) -> (r: TextMap<Vec<char>>)
        ensures
            forall|x: Seq<char>| #[trigger] r.has_key(x) == self.has_key(x),
            forall|x: Seq<char>| self.has_key(x) ==> (#[trigger] r.value_at(x))@ == self.value_at(x)@,
    {
        proof {
            use_type_invariant(self);
        }
        let mut es: Vec<(Vec<char>, Vec<char>)> = Vec::new();
        let mut i: usize = 0;
        while i < self.entries.len()
            invariant
                i <= self.entries.len(),
                es@.len() == i,
                forall|j: int| 0 <= j < i ==> (#[trigger] es@[j]).0@ == self.entries@[j].0@ && es@[j].1@
                    == self.entries@[j].1@,
            decreases self.entries.len() - i,
        {
            es.push((copy_text(&self.entries[i].0), copy_text(&self.entries[i].1)));
            i += 1;
        }
        proof {
            assert forall|a: int, b: int| 0 <= a < b < es@.len() implies (#[trigger] es@[a]).0@
                != (#[trigger] es@[b]).0@ by {
                assert(self.entries@[a].0@ != self.entries@[b].0@);
            }
        }
        let r = TextMap { entries: es };
        proof {
            assert forall|x: Seq<char>| #[trigger] r.has_key(x) == self.has_key(x) by {
                if r.has_key(x) {
                    let c = choose|c: int| 0 <= c < r.entries@.len() && (#[trigger] r.entries@[c]).0@ == x;
                    assert(self.entries@[c].0@ == x);
                }
                if self.has_key(x) {
                    let c = choose|c: int| 0 <= c < self.entries@.len() && (#[trigger] self.entries@[c]).0@ == x;
                    assert(r.entries@[c].0@ == x);
                }
            }
            assert forall|x: Seq<char>| self.has_key(x) implies (#[trigger] r.value_at(x))@ == self.value_at(x)@ by {
                assert(r.has_key(x));
                let c = choose|c: int| 0 <= c < r.entries@.len() && (#[trigger] r.entries@[c]).0@ == x;
                let d = choose|d: int| 0 <= d < self.entries@.len() && (#[trigger] self.entries@[d]).0@ == x;
                if c != d {
                    if c < d {
                        assert(self.entries@[c].0@ != self.entries@[d].0@);
                    } else {
                        assert(self.entries@[d].0@ != self.entries@[c].0@);
                    }
                }
            }
        }
        r
    }
}

impl TextMap<Vec<char>> {
    /// Drops the entries whose value is `exact` or starts with `prefix`.
    pub fn remove_by_value(&mut self, exact: Option<&Vec<char>>, prefix: &Vec<char>)
        ensures
            forall|x: Seq<char>|
                #[trigger] final(self).has_key(x) ==> old(self).has_key(x) && final(self).value_at(x)@
                    == old(self).value_at(x)@,
            forall|x: Seq<char>|
                #[trigger] final(self).has_key(x) <==> old(self).has_key(x) && !value_dropped(
                    old(self).value_at(x)@,
                    match exact {
                        Some(e) => Some(e@),
                        None => None,
                    },
                    prefix@,
                ),
    {
        proof {
            use_type_invariant(&*self);
        }
        let ghost orig = *self;
        let mut rest: Vec<(Vec<char>, Vec<char>)> = Vec::new();
        std::mem::swap(&mut rest, &mut self.entries);
        let ghost start = rest@;
        let mut out: TextMap<Vec<char>> = TextMap::new();
        let mut i: usize = 0;
        let ghost dropped_exact = match exact {
            Some(e) => Some(e@),
            None => None,
        };
        proof {
            assert(start.len() == rest.len());
            assert(start.skip(0) =~= start);
            assert forall|c: int| 0 <= c < start.len() implies orig.value_at(#[trigger] start[c].0@) == start[c].1 by {
                let key = start[c].0@;
                assert(orig.has_key(key));
                let d = choose|d: int| 0 <= d < orig.entries@.len() && (#[trigger] orig.entries@[d]).0@ == key;
                if d != c {
                    if d < c {
                        assert(start[d].0@ != start[c].0@);
                    } else {
                        assert(start[c].0@ != start[d].0@);
                    }
                }
            }
        }
        while rest.len() > 0
            invariant
                orig.entries@ == start,
                orig.wf(),
                start.len() <= usize::MAX,
                rest@ == start.skip(i as int),
                i <= start.len(),
                forall|x: Seq<char>|
                    #[trigger] out.has_key(x) ==> orig.has_key(x) && out.value_at(x)@
                        == orig.value_at(x)@ && !value_dropped(orig.value_at(x)@, dropped_exact, prefix@),
                forall|c: int|
                    0 <= c < i && !value_dropped(#[trigger] start[c].1@, dropped_exact, prefix@) ==> out.has_key(start[c].0@),
                forall|c: int| 0 <= c < start.len() ==> orig.value_at(#[trigger] start[c].0@) == start[c].1,
            decreases rest.len(),
        {
            let entry = rest.remove(0);
            proof {
                assert(entry == start[i as int]);
                assert(rest@ =~= start.skip(i + 1));
                assert(i < start.len());
            }
            let keep = match exact {
                Some(e) => !text_eq(&entry.1, e),
                None => true,
            } && !starts_with(&entry.1, prefix);
            if keep {
                let ghost key = entry.0@;
                proof {
                    assert(orig.has_key(key));
                    let c = choose|c: int|
                        0 <= c < orig.entries@.len() && (#[trigger] orig.entries@[c]).0@ == key;
                    if c != i {
                        if c < i {
                            assert(start[c].0@ != start[i as int].0@);
                        } else {
                            assert(start[i as int].0@ != start[c].0@);
                        }
                    }
                }
                out.insert(entry.0, entry.1);
            }
            i += 1;
        }
        proof {
            assert forall|x: Seq<char>| #[trigger] orig.has_key(x) && !value_dropped(orig.value_at(x)@, dropped_exact, prefix@) implies out.has_key(x) by {
                let c = choose|c: int| 0 <= c < orig.entries@.len() && (#[trigger] orig.entries@[c]).0@ == x;
                assert(start[c].0@ == x);
            }
        }
        *self = out;
    }
}

/// A value that `remove_by_value` drops: equal to `exact` or starting with
/// `prefix`.
pub open spec fn value_dropped(v: Seq<char>, exact: Option<Seq<char>>, prefix: Seq<char>) -> bool {
    (exact matches Some(e) && v == e) || has_prefix(v, prefix)
}

impl<V: Copy> TextMap<V> {
    /// A copy of the map.
    pub fn duplicate(&self) -> (r: TextMap<V>)
        ensures
            forall|x: Seq<char>| #[trigger] r.has_key(x) == self.has_key(x),
            forall|x: Seq<char>| self.has_key(x) ==> #[trigger] r.value_at(x) == self.value_at(x),
    {
        proof {
            use_type_invariant(self);
        }
        let mut es: Vec<(Vec<char>, V)> = Vec::new();
        let mut i: usize = 0;
        while i < self.entries.len()
            invariant
                i <= self.entries.len(),
                es@.len() == i,
                forall|j: int| 0 <= j < i ==> (#[trigger] es@[j]).0@ == self.entries@[j].0@ && es@[j].1
                    == self.entries@[j].1,
            decreases self.entries.len() - i,
        {
            es.push((copy_text(&self.entries[i].0), self.entries[i].1));
            i += 1;
        }
        proof {
            assert forall|a: int, b: int| 0 <= a < b < es@.len() implies (#[trigger] es@[a]).0@
                != (#[trigger] es@[b]).0@ by {
                assert(self.entries@[a].0@ != self.entries@[b].0@);
            }
        }
        let r = TextMap { entries: es };
        proof {
            assert forall|x: Seq<char>| #[trigger] r.has_key(x) == self.has_key(x) by {
                if r.has_key(x) {
                    let c = choose|c: int| 0 <= c < r.entries@.len() && (#[trigger] r.entries@[c]).0@ == x;
                    assert(self.entries@[c].0@ == x);
                }
                if self.has_key(x) {
                    let c = choose|c: int| 0 <= c < self.entries@.len() && (#[trigger] self.entries@[c]).0@ == x;
                    assert(r.entries@[c].0@ == x);
                }
            }
            assert forall|x: Seq<char>| self.has_key(x) implies #[trigger] r.value_at(x) == self.value_at(x) by {
                assert(r.has_key(x));
                let c = choose|c: int| 0 <= c < r.entries@.len() && (#[trigger] r.entries@[c]).0@ == x;
                let d = choose|d: int| 0 <= d < self.entries@.len() && (#[trigger] self.entries@[d]).0@ == x;
                if c != d {
                    if c < d {
                        assert(self.entries@[c].0@ != self.entries@[d].0@);
                    } else {
                        assert(self.entries@[d].0@ != self.entries@[c].0@);
                    }
                }
            }
        }
        r
    }

    /// The value at `k`.
    pub fn get(&self, k: &Vec<char>) -> (r: Option<V>)
        ensures
            r is Some <==> self.has_key(k@),
            r matches Some(v) ==> v == self.value_at(k@),
    {
        match self.position(k) {
            Some(i) => Some(self.entries[i].1),
            None => None,
        }
    }
}

/// Which keys a filter of `TextMap` drops: mode 0 drops the key `name`,
/// mode 1 those starting with `name`.
pub open spec fn key_dropped(x: Seq<char>, name: Seq<char>, mode: u8) -> bool {
    if mode == 0 {
        x == name
    } else {
        has_prefix(x, name)
    }
}

fn key_is_dropped(x: &Vec<char>, name: &Vec<char>, mode: u8) -> (r: bool)
    ensures
        r == key_dropped(x@, name@, mode),
{
    if mode == 0 {
        text_eq(x, name)
    } else {
        starts_with(x, name)
    }
}

/// `prefix` begins `x`.
pub fn has_prefix_exec(x: &Vec<char>, prefix: &Vec<char>) -> (r: bool)
    ensures
        r == has_prefix(x@, prefix@),
{
    starts_with(x, prefix)
}

} // verus!
