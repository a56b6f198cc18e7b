//! Collections keyed by name. A `NameMap` keeps its entries sorted by name and holds every
//! name once, so walking it is deterministic; a `NameSet` is a map without values.

use vstd::prelude::*;
use vstd::seq_lib::*;
use vstd::string::*;

use crate::text::{
    comes_before, lemma_text_lt_irreflexive, lemma_text_lt_total, lemma_text_lt_transitive, same_text,
    text_lt, views, Text,
};

verus! {

// ---------------------------------------------------------------------------
// Sorted sequences of names
// ---------------------------------------------------------------------------

/// Names in strictly ascending order, so that none occurs twice.
pub open spec fn ascending(q: Seq<Text>) -> bool {
    forall|i: int, j: int| 0 <= i < j < q.len() ==> text_lt(#[trigger] q[i], #[trigger] q[j])
}

/// The names of a finite set in ascending order.
pub open spec fn in_order(s: Set<Text>) -> Seq<Text> {
    choose|q: Seq<Text>| ascending(q) && #[trigger] q.to_set() == s
}

/// A set of names can be written in ascending order in one way only.
pub proof fn lemma_ascending_unique(p: Seq<Text>, q: Seq<Text>)
    requires
        ascending(p),
        ascending(q),
        p.to_set() == q.to_set(),
    ensures
        p == q,
    decreases p.len(),
{
    if p.len() == 0 {
        if q.len() > 0 {
            assert(q.to_set().contains(q[0]));
            assert(p.contains(q[0]));
        }
        assert(p =~= q);
    } else if q.len() == 0 {
        assert(p.to_set().contains(p[0]));
        assert(q.contains(p[0]));
    } else {
        let x = p.last();
        let y = q.last();
        assert(p.to_set().contains(x));
        assert(q.to_set().contains(y));
        assert(q.contains(x) && p.contains(y));
        let i = q.index_of(x);
        let j = p.index_of(y);
        lemma_text_lt_irreflexive(x);
        if i < q.len() - 1 && j < p.len() - 1 {
            lemma_text_lt_transitive(x, y, x);
        }
        assert(x == y);
        lemma_ascending_drop_last(p);
        lemma_ascending_drop_last(q);
        assert(p.drop_last().to_set() =~= q.drop_last().to_set());
        lemma_ascending_unique(p.drop_last(), q.drop_last());
        assert(p =~= p.drop_last().push(x));
        assert(q =~= q.drop_last().push(y));
    }
}

proof fn lemma_ascending_drop_last(p: Seq<Text>)
    requires
        ascending(p),
        p.len() > 0,
    ensures
        ascending(p.drop_last()),
        p.drop_last().to_set() == p.to_set().remove(p.last()),
{
    assert forall|n: Text| #[trigger]
        p.drop_last().to_set().contains(n) == p.to_set().remove(p.last()).contains(n) by {
        if p.drop_last().contains(n) {
            let k = p.drop_last().index_of(n);
            assert(p[k] == n);
            lemma_text_lt_irreflexive(n);
        }
        if p.contains(n) && n != p.last() {
            let k = p.index_of(n);
            assert(p.drop_last()[k] == n);
        }
    }
    assert(p.drop_last().to_set() =~= p.to_set().remove(p.last()));
}

/// Names in ascending order are the ordering of their set.
pub proof fn lemma_in_order(q: Seq<Text>)
    requires
        ascending(q),
    ensures
        in_order(q.to_set()) == q,
{
    let r = in_order(q.to_set());
    assert(ascending(r) && r.to_set() == q.to_set());
    lemma_ascending_unique(r, q);
}

/// Names in ascending order hold no name twice.
pub proof fn lemma_ascending_distinct(q: Seq<Text>)
    requires
        ascending(q),
    ensures
        q.no_duplicates(),
        q.len() == q.to_set().len(),
        q.to_set().finite(),
{
    assert forall|i: int, j: int| 0 <= i < q.len() && 0 <= j < q.len() && i != j implies q[i]
        != q[j] by {
        lemma_text_lt_irreflexive(q[i]);
    }
    seq_to_set_is_finite(q);
    q.unique_seq_to_set();
}

/// A name that ascending names lack can be put among them.
proof fn lemma_ascending_insert(q: Seq<Text>, a: Text) -> (r: Seq<Text>)
    requires
        ascending(q),
        !q.contains(a),
    ensures
        ascending(r),
        r.to_set() == q.to_set().insert(a),
    decreases q.len(),
{
    if q.len() == 0 {
        let r = seq![a];
        assert(r.to_set() =~= q.to_set().insert(a)) by {
            assert(r[0] == a);
        }
        r
    } else {
        let z = q.last();
        assert(q[q.len() - 1] == z);
        assert(q.contains(z));
        lemma_text_lt_total(a, z);
        lemma_ascending_drop_last(q);
        let (base, top) = if text_lt(z, a) {
            (q, a)
        } else {
            assert(!q.drop_last().contains(a)) by {
                if q.drop_last().contains(a) {
                    assert(q[q.drop_last().index_of(a)] == a);
                }
            }
            (lemma_ascending_insert(q.drop_last(), a), z)
        };
        let r = base.push(top);
        assert forall|i: int| 0 <= i < base.len() implies text_lt(#[trigger] base[i], top) by {
            assert(base.to_set().contains(base[i]));
            if text_lt(z, a) {
                if i < q.len() - 1 {
                    assert(text_lt(q[i], q[q.len() - 1]));
                    lemma_text_lt_transitive(q[i], z, a);
                }
            } else if base[i] != a {
                assert(q.drop_last().to_set().contains(base[i]));
                let k = q.drop_last().index_of(base[i]);
                assert(q.drop_last()[k] == q[k]);
                assert(text_lt(q[k], q[q.len() - 1]));
            }
        }
        assert forall|i: int, j: int| 0 <= i < j < r.len() implies text_lt(
            #[trigger] r[i],
            #[trigger] r[j],
        ) by {
            assert(r[i] == base[i]);
            if j < base.len() {
                assert(r[j] == base[j]);
            }
        }
        base.lemma_push_to_set_commute(top);
        assert(r.to_set() =~= q.to_set().insert(a));
        r
    }
}

/// Every finite set of names has an ascending order.
pub proof fn lemma_in_order_exists(s: Set<Text>)
    requires
        s.finite(),
    ensures
        ascending(in_order(s)),
        in_order(s).to_set() == s,
    decreases s.len(),
{
    if s.len() == 0 {
        let q = Seq::<Text>::empty();
        assert(q.to_set() =~= s);
        assert(ascending(q));
    } else {
        let a = s.choose();
        lemma_in_order_exists(s.remove(a));
        let q = in_order(s.remove(a));
        assert(!q.contains(a)) by {
            if q.contains(a) {
                assert(q.to_set().contains(a));
            }
        }
        let r = lemma_ascending_insert(q, a);
        assert(r.to_set() =~= s);
        assert(ascending(r) && r.to_set() == s);
    }
}

// ---------------------------------------------------------------------------
// Maps
// ---------------------------------------------------------------------------

/// A map from names to values, sorted by name.
#[derive(Clone, Debug)]
pub struct NameMap<V> {
    entries: Vec<(String, V)>,
}

impl<V> View for NameMap<V> {
    type V = Map<Text, V>;

    closed spec fn view(&self) -> Map<Text, V> {
        Map::new(
            |k: Text| self.names().contains(k),
            |k: Text| self.entries@[self.names().index_of(k)].1,
        )
    }
}

impl<V> NameMap<V> {
    /// The names, in the order in which the entries stand.
    pub closed spec fn names(&self) -> Seq<Text> {
        self.entries@.map_values(|e: (String, V)| e.0@)
    }

    /// The entries are sorted, and every name occurs once.
    pub closed spec fn wf(&self) -> bool {
        ascending(self.names())
    }

    /// What being well-formed gives to those who cannot see the entries.
    pub proof fn lemma_wf(&self)
        requires
            self.wf(),
        ensures
            ascending(self.names()),
            self.names().no_duplicates(),
            self@.dom() == self.names().to_set(),
            self@.dom().finite(),
            self@.dom().len() == self.names().len(),
            self.names() == in_order(self@.dom()),
    {
        lemma_ascending_distinct(self.names());
        assert(self@.dom() =~= self.names().to_set());
        lemma_in_order(self.names());
    }

    proof fn lemma_value(&self, i: int)
        requires
            self.wf(),
            0 <= i < self.entries@.len(),
        ensures
            self@.contains_key(self.entries@[i].0@),
            self@[self.entries@[i].0@] == self.entries@[i].1,
            self.names()[i] == self.entries@[i].0@,
    {
        let k = self.entries@[i].0@;
        assert(self.names()[i] == k);
        let j = self.names().index_of(k);
        assert(self.names()[j] == k);
        lemma_ascending_distinct(self.names());
    }

    proof fn lemma_value_changed(before: Self, after: Self, i: int)
        requires
            before.wf(),
            0 <= i < before.entries@.len(),
            after.names() == before.names(),
            forall|j: int|
                0 <= j < before.entries@.len() && j != i ==> #[trigger] after.entries@[j].1
                    == before.entries@[j].1,
        ensures
            after.wf(),
            after@ == before@.insert(before.names()[i], after.entries@[i].1),
    {
        let k = before.names()[i];
        assert(before.names().len() == before.entries@.len());
        assert(after.names().len() == after.entries@.len());
        assert forall|n: Text| before@.contains_key(n) && n != k implies after@[n] == before@[n] by {
            let j = before.names().index_of(n);
            assert(before.names()[j] == n);
            before.lemma_value(j);
            after.lemma_value(j);
        }
        before.lemma_value(i);
        after.lemma_value(i);
        assert(after@ =~= before@.insert(k, after.entries@[i].1));
    }

    /// A map without entries.
    pub fn new() -> (r: NameMap<V>)
        ensures
            r.wf(),
            r@ == Map::<Text, V>::empty(),
    {
        let r = NameMap { entries: Vec::new() };
        assert(r@ =~= Map::<Text, V>::empty());
        r
    }

    /// The number of entries.
    pub fn len(&self) -> (r: usize)
        requires
            self.wf(),
        ensures
            r == self.names().len(),
            r == self@.dom().len(),
    {
        proof {
            self.lemma_wf();
        }
        self.entries.len()
    }

    /// The `i`-th name in ascending order.
    pub fn name_at(&self, i: usize) -> (r: &String)
        requires
            self.wf(),
            i < self.names().len(),
        ensures
            r@ == self.names()[i as int],
    {
        &self.entries[i].0
    }

    /// All names, in ascending order.
    pub fn list(&self) -> (r: Vec<String>)
        requires
            self.wf(),
        ensures
            views(r@) == self.names(),
    {
        let mut out: Vec<String> = Vec::new();
        let n = self.entries.len();
        let mut i: usize = 0;
        while i < n
            invariant
                i <= n,
                n == self.entries@.len(),
                out@.len() == i,
                views(out@) =~= self.names().take(i as int),
            decreases n - i,
        {
            out.push(self.entries[i].0.clone());
            i += 1;
        }
        assert(self.names().take(n as int) =~= self.names());
        out
    }

    /// The value of the `i`-th name in ascending order.
    pub fn value_at(&self, i: usize) -> (r: &V)
        requires
            self.wf(),
            i < self.names().len(),
        ensures
            self@.contains_key(self.names()[i as int]),
            *r == self@[self.names()[i as int]],
    {
        proof {
            self.lemma_value(i as int);
        }
        &self.entries[i].1
    }

    /// The values, in ascending order of their names.
    pub fn into_values(self) -> (r: Vec<V>)
        requires
            self.wf(),
        ensures
            r@ == self.names().map_values(|n: Text| self@[n]),
    {
        let ghost given = self;
        let ghost pick = |n: Text| given@[n];
        let mut entries = self.entries;
        let mut out: Vec<V> = Vec::new();
        let n = entries.len();
        let mut i: usize = 0;
        while i < n
            invariant
                given.wf(),
                pick == (|n: Text| given@[n]),
                i <= n,
                n == given.entries@.len(),
                entries@ == given.entries@.skip(i as int),
                out@ == given.names().take(i as int).map_values(pick),
            decreases n - i,
        {
            let ghost so_far = out@;
            let (_name, value) = entries.remove(0);
            proof {
                given.lemma_value(i as int);
                assert(entries@ =~= given.entries@.skip(i + 1));
                assert(given.names().take(i + 1) =~= given.names().take(i as int).push(
                    given.names()[i as int],
                ));
            }
            out.push(value);
            assert(out@ =~= given.names().take(i + 1).map_values(pick));
            i += 1;
        }
        assert(given.names().take(n as int) =~= given.names());
        out
    }

    /// The value of the `i`-th name in ascending order, to be changed in place.
    pub fn value_at_mut(&mut self, i: usize) -> (r: &mut V)
        requires
            old(self).wf(),
            i < old(self).names().len(),
        ensures
            old(self)@.contains_key(old(self).names()[i as int]),
            *r == old(self)@[old(self).names()[i as int]],
            final(self).wf(),
            final(self).names() == old(self).names(),
            final(self)@ == old(self)@.insert(old(self).names()[i as int], *final(r)),
    {
        let ghost before = *self;
        let ghost after = *final(self);
        proof {
            self.lemma_value(i as int);
        }
        let r = &mut self.entries[i].1;
        proof {
            assert(after.names() =~= before.names());
            Self::lemma_value_changed(before, after, i as int);
        }
        r
    }

    /// The first position whose name does not come before `name`.
    fn position(&self, name: &str) -> (r: usize)
        requires
            self.wf(),
        ensures
            r <= self.entries@.len(),
            forall|k: int| 0 <= k < r ==> text_lt(#[trigger] self.names()[k], name@),
            forall|k: int| r <= k < self.names().len() ==> !text_lt(#[trigger] self.names()[k], name@),
    {
        let mut i: usize = 0;
        while i < self.entries.len() && comes_before(self.entries[i].0.as_str(), name)
            invariant
                self.wf(),
                i <= self.entries@.len(),
                forall|k: int| 0 <= k < i ==> text_lt(#[trigger] self.names()[k], name@),
            decreases self.entries@.len() - i,
        {
            i += 1;
        }
        proof {
            assert forall|k: int| i <= k < self.names().len() implies !text_lt(
                #[trigger] self.names()[k],
                name@,
            ) by {
                if k > i && text_lt(self.names()[k], name@) {
                    assert(text_lt(self.names()[i as int], self.names()[k]));
                    lemma_text_lt_transitive(self.names()[i as int], self.names()[k], name@);
                }
            }
        }
        i
    }

    /// The value that stands under `name`.
    pub fn get(&self, name: &str) -> (r: Option<&V>)
        requires
            self.wf(),
        ensures
            match r {
                Some(v) => self@.contains_key(name@) && *v == self@[name@],
                None => !self@.contains_key(name@),
            },
    {
        let i = self.position(name);
        if i < self.entries.len() && same_text(self.entries[i].0.as_str(), name) {
            proof {
                self.lemma_value(i as int);
            }
            Some(&self.entries[i].1)
        } else {
            proof {
                self.lemma_absent(i as int, name@);
            }
            None
        }
    }

    proof fn lemma_absent(&self, i: int, name: Text)
        requires
            self.wf(),
            0 <= i <= self.names().len(),
            forall|k: int| 0 <= k < i ==> text_lt(#[trigger] self.names()[k], name),
            forall|k: int| i <= k < self.names().len() ==> !text_lt(#[trigger] self.names()[k], name),
            i < self.names().len() ==> self.names()[i] != name,
        ensures
            !self.names().contains(name),
            !self@.contains_key(name),
            forall|k: int| i <= k < self.names().len() ==> text_lt(name, #[trigger] self.names()[k]),
    {
        assert forall|k: int| i <= k < self.names().len() implies text_lt(
            name,
            #[trigger] self.names()[k],
        ) by {
            lemma_text_lt_total(self.names()[k], name);
            if self.names()[k] == name {
                assert(text_lt(self.names()[i], self.names()[k]));
            }
        }
        if self.names().contains(name) {
            let k = self.names().index_of(name);
            lemma_text_lt_irreflexive(name);
        }
    }

    /// Whether there is an entry under `name`.
    pub fn contains(&self, name: &str) -> (r: bool)
        requires
            self.wf(),
        ensures
            r == self@.contains_key(name@),
    {
        self.get(name).is_some()
    }

    /// Puts `value` under `name`, in place of what stood there.
    pub fn insert(&mut self, name: String, value: V)
        requires
            old(self).wf(),
        ensures
            final(self).wf(),
            final(self)@ == old(self)@.insert(name@, value),
    {
        let i = self.position(name.as_str());
        let ghost before = *self;
        if i < self.entries.len() && same_text(self.entries[i].0.as_str(), name.as_str()) {
            let ghost k = name@;
            proof {
                self.lemma_value(i as int);
            }
            self.entries.set(i, (name, value));
            proof {
                assert(self.names() =~= before.names());
                Self::lemma_value_changed(before, *self, i as int);
            }
        } else {
            let ghost k = name@;
            proof {
                self.lemma_absent(i as int, k);
            }
            self.entries.insert(i, (name, value));
            proof {
                let a = before.names();
                let b = self.names();
                assert(b =~= a.insert(i as int, k));
                assert forall|x: int, y: int| 0 <= x < y < b.len() implies text_lt(
                    #[trigger] b[x],
                    #[trigger] b[y],
                ) by {
                    let x0 = if x < i { x } else { x - 1 };
                    let y0 = if y < i { y } else { y - 1 };
                    if x != i {
                        assert(b[x] == a[x0]);
                    }
                    if y != i {
                        assert(b[y] == a[y0]);
                    }
                }
                assert(self.wf());
                self.lemma_value(i as int);
                assert forall|n: Text| self@.contains_key(n) == #[trigger] before@.insert(
                    k,
                    value,
                ).contains_key(n) by {
                    if b.contains(n) {
                        let j = b.index_of(n);
                        if j < i {
                            assert(a[j] == n);
                        } else if j > i {
                            assert(a[j - 1] == n);
                        }
                    }
                    if a.contains(n) {
                        let j = a.index_of(n);
                        if j < i {
                            assert(b[j] == n);
                        } else {
                            assert(b[j + 1] == n);
                        }
                    }
                    assert(b[i as int] == k);
                }
                assert forall|n: Text| before@.contains_key(n) implies self@[n] == before@[n] by {
                    let j = a.index_of(n);
                    assert(a[j] == n);
                    before.lemma_value(j);
                    if j < i {
                        self.lemma_value(j);
                    } else {
                        self.lemma_value(j + 1);
                    }
                }
                assert(self@ =~= before@.insert(k, value));
            }
        }
    }

    /// Takes the entry under `name` out, where there is one.
    pub fn remove(&mut self, name: &str)
        requires
            old(self).wf(),
        ensures
            final(self).wf(),
            final(self)@ == old(self)@.remove(name@),
    {
        let i = self.position(name);
        let ghost before = *self;
        if i < self.entries.len() && same_text(self.entries[i].0.as_str(), name) {
            let _ = self.entries.remove(i);
            proof {
                let a = before.names();
                let b = self.names();
                assert(b =~= a.remove(i as int));
                assert forall|x: int, y: int| 0 <= x < y < b.len() implies text_lt(
                    #[trigger] b[x],
                    #[trigger] b[y],
                ) by {
                    let x0 = if x < i { x } else { x + 1 };
                    let y0 = if y < i { y } else { y + 1 };
                    assert(b[x] == a[x0] && b[y] == a[y0]);
                }
                assert(self.wf());
                lemma_ascending_distinct(a);
                assert forall|n: Text| self@.contains_key(n) == #[trigger] before@.remove(
                    name@,
                ).contains_key(n) by {
                    if b.contains(n) {
                        let j = b.index_of(n);
                        let j0 = if j < i { j } else { j + 1 };
                        assert(a[j0] == n && j0 != i && a[i as int] == name@);
                    }
                    if a.contains(n) && n != name@ {
                        let j = a.index_of(n);
                        let j0 = if j < i { j } else { j - 1 };
                        assert(b[j0] == n);
                    }
                }
                assert forall|n: Text| self@.contains_key(n) implies self@[n] == before@[n] by {
                    let j = b.index_of(n);
                    assert(b[j] == n);
                    self.lemma_value(j);
                    if j < i {
                        before.lemma_value(j);
                    } else {
                        before.lemma_value(j + 1);
                    }
                }
                assert(self@ =~= before@.remove(name@));
            }
        } else {
            proof {
                self.lemma_absent(i as int, name@);
                assert(self@ =~= before@.remove(name@));
            }
        }
    }
}

// ---------------------------------------------------------------------------
// Sets
// ---------------------------------------------------------------------------

/// A set of names.
pub struct NameSet {
    map: NameMap<()>,
}

impl View for NameSet {
    type V = Set<Text>;

    closed spec fn view(&self) -> Set<Text> {
        self.map@.dom()
    }
}

impl NameSet {
    /// The underlying map is well-formed.
    pub closed spec fn wf(&self) -> bool {
        self.map.wf()
    }

    /// A set without names.
    pub fn new() -> (r: NameSet)
        ensures
            r.wf(),
            r@ == Set::<Text>::empty(),
    {
        let r = NameSet { map: NameMap::new() };
        assert(r@ =~= Set::<Text>::empty());
        r
    }

    /// The number of names.
    pub fn len(&self) -> (r: usize)
        requires
            self.wf(),
        ensures
            r == self@.len(),
            self@.finite(),
    {
        proof {
            self.map.lemma_wf();
        }
        self.map.len()
    }

    /// Whether `name` is in the set.
    pub fn contains(&self, name: &str) -> (r: bool)
        requires
            self.wf(),
        ensures
            r == self@.contains(name@),
    {
        self.map.contains(name)
    }

    /// The names of the set, in ascending order.
    pub fn list(&self) -> (r: Vec<String>)
        requires
            self.wf(),
        ensures
            views(r@) == in_order(self@),
            r@.len() == self@.len(),
            forall|k: int| 0 <= k < r@.len() ==> self@.contains(#[trigger] r@[k]@),
    {
        let r = self.map.list();
        proof {
            self.map.lemma_wf();
            assert forall|k: int| 0 <= k < r@.len() implies self@.contains(#[trigger] r@[k]@) by {
                assert(views(r@)[k] == r@[k]@);
                assert(self.map.names().to_set().contains(self.map.names()[k]));
            }
            assert(views(r@).len() == r@.len());
        }
        r
    }

    /// Adds `name`.
    pub fn insert(&mut self, name: String)
        requires
            old(self).wf(),
        ensures
            final(self).wf(),
            final(self)@ == old(self)@.insert(name@),
    {
        let ghost n = name@;
        self.map.insert(name, ());
        assert(self@ =~= old(self)@.insert(n));
    }

    /// Takes `name` out.
    pub fn remove(&mut self, name: &str)
        requires
            old(self).wf(),
        ensures
            final(self).wf(),
            final(self)@ == old(self)@.remove(name@),
    {
        self.map.remove(name);
        assert(self@ =~= old(self)@.remove(name@));
    }
}

} // verus!
