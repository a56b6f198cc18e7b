//! The theory of start orders: a dependency graph, the depth-first walk that orders it, and
//! what an order is worth.

use vstd::prelude::*;
use vstd::seq_lib::*;

use crate::text::Text;

verus! {

/// A dependency graph: every defined name with the names it depends on, as they are listed.
pub type Graph = Map<Text, Seq<Text>>;

/// What keeps a graph from being ordered.
pub enum Fault {
    /// The name depends on itself, directly or through others.
    Cycle(Text),
    /// The name is depended upon and not defined.
    Undefined(Text),
}

// ---------------------------------------------------------------------------
// The walk
// ---------------------------------------------------------------------------

/// The number of defined names that do not stand on `path`.
pub open spec fn fresh(g: Graph, path: Seq<Text>) -> nat {
    g.dom().difference(path.to_set()).len()
}

/// The depth-first unfolding of `n`, reached along `path`: everything that `n` depends on, each
/// name behind what it depends on itself, and `n` at the end. A name that is needed several
/// times comes several times. The walk stops at the first name that stands on its own path or
/// is not defined.
pub open spec fn walk(g: Graph, path: Seq<Text>, n: Text) -> Result<Seq<Text>, Fault>
    decreases fresh(g, path), 0nat,
    when g.dom().finite()
{
    if path.contains(n) {
        Err(Fault::Cycle(n))
    } else if !g.contains_key(n) {
        Err(Fault::Undefined(n))
    } else {
        proof {
            lemma_fresh_push(g, path, n);
        }
        match walk_all(g, path.push(n), g[n]) {
            Ok(s) => Ok(s.push(n)),
            Err(f) => Err(f),
        }
    }
}

/// The unfoldings of the names `ns`, one behind the other.
pub open spec fn walk_all(g: Graph, path: Seq<Text>, ns: Seq<Text>) -> Result<Seq<Text>, Fault>
    decreases fresh(g, path), ns.len() + 1,
    when g.dom().finite()
{
    if ns.len() == 0 {
        Ok(Seq::empty())
    } else {
        match walk_all(g, path, ns.drop_last()) {
            Ok(s) => match walk(g, path, ns.last()) {
                Ok(t) => Ok(s + t),
                Err(f) => Err(f),
            },
            Err(f) => Err(f),
        }
    }
}

/// `o` with those names of `s` that it lacks behind it, each where it first occurs in `s`.
pub open spec fn extend(o: Seq<Text>, s: Seq<Text>) -> Seq<Text>
    decreases s.len(),
{
    if s.len() == 0 {
        o
    } else {
        let p = extend(o, s.drop_last());
        if p.contains(s.last()) {
            p
        } else {
            p.push(s.last())
        }
    }
}

/// The start order for `roots`: the unfolding of the roots, with every name kept where it first
/// occurs; or the first fault that the walk meets.
pub open spec fn plan(g: Graph, roots: Seq<Text>) -> Result<Seq<Text>, Fault> {
    match walk_all(g, Seq::empty(), roots) {
        Ok(s) => Ok(extend(Seq::empty(), s)),
        Err(f) => Err(f),
    }
}

pub proof fn lemma_fresh_push(g: Graph, path: Seq<Text>, n: Text)
    requires
        g.dom().finite(),
        g.contains_key(n),
        !path.contains(n),
    ensures
        fresh(g, path.push(n)) < fresh(g, path),
{
    let a = g.dom().difference(path.to_set());
    let b = g.dom().difference(path.push(n).to_set());
    assert(path.push(n)[path.len() as int] == n);
    assert forall|x: Text| b.contains(x) == #[trigger] a.remove(n).contains(x) by {
        if path.push(n).contains(x) && x != n {
            let i = path.push(n).index_of(x);
            assert(path[i] == x);
        }
        if path.contains(x) {
            let i = path.index_of(x);
            assert(path.push(n)[i] == x);
        }
    }
    assert(b =~= a.remove(n));
}

/// Once the walk of some of the names has met a fault, the walk of all of them has met it.
pub proof fn lemma_walk_all_err(g: Graph, path: Seq<Text>, ns: Seq<Text>, k: int)
    requires
        g.dom().finite(),
        0 <= k <= ns.len(),
        walk_all(g, path, ns.take(k)) is Err,
    ensures
        walk_all(g, path, ns) == walk_all(g, path, ns.take(k)),
    decreases ns.len() - k,
{
    if k < ns.len() {
        assert(ns.take(k + 1).drop_last() =~= ns.take(k));
        lemma_walk_all_err(g, path, ns, k + 1);
    } else {
        assert(ns.take(k) =~= ns);
    }
}

// ---------------------------------------------------------------------------
// Extending an order
// ---------------------------------------------------------------------------

/// Nothing is added where nothing is missing.
pub proof fn lemma_extend_none(o: Seq<Text>, s: Seq<Text>)
    requires
        forall|i: int| 0 <= i < s.len() ==> o.contains(#[trigger] s[i]),
    ensures
        extend(o, s) == o,
    decreases s.len(),
{
    if s.len() > 0 {
        assert forall|i: int| 0 <= i < s.drop_last().len() implies o.contains(
            #[trigger] s.drop_last()[i],
        ) by {
            assert(s[i] == s.drop_last()[i]);
        }
        lemma_extend_none(o, s.drop_last());
        assert(o.contains(s[s.len() - 1]));
    }
}

/// Extending by two sequences is extending by their concatenation.
pub proof fn lemma_extend_add(o: Seq<Text>, s: Seq<Text>, t: Seq<Text>)
    ensures
        extend(o, s + t) == extend(extend(o, s), t),
    decreases t.len(),
{
    if t.len() == 0 {
        assert(s + t =~= s);
    } else {
        assert((s + t).drop_last() =~= s + t.drop_last());
        assert((s + t).last() == t.last());
        lemma_extend_add(o, s, t.drop_last());
    }
}

/// The extended order holds what was there and what was added, and nothing else.
pub proof fn lemma_extend_contains(o: Seq<Text>, s: Seq<Text>, n: Text)
    ensures
        extend(o, s).contains(n) <==> o.contains(n) || s.contains(n),
    decreases s.len(),
{
    if s.len() > 0 {
        let d = s.drop_last();
        let p = extend(o, d);
        lemma_extend_contains(o, d, n);
        assert(s =~= d.push(s.last()));
        assert(s.contains(n) <==> d.contains(n) || n == s.last()) by {
            if d.contains(n) {
                assert(s[d.index_of(n)] == n);
            }
            if s.contains(n) && n != s.last() {
                assert(d[s.index_of(n)] == n);
            }
            assert(s[s.len() - 1] == s.last());
        }
        if !p.contains(s.last()) {
            assert(p.push(s.last()).contains(n) <==> p.contains(n) || n == s.last()) by {
                if p.contains(n) {
                    assert(p.push(s.last())[p.index_of(n)] == n);
                }
                if p.push(s.last()).contains(n) && n != s.last() {
                    assert(p[p.push(s.last()).index_of(n)] == n);
                }
                assert(p.push(s.last())[p.len() as int] == s.last());
            }
        }
    }
}

// ---------------------------------------------------------------------------
// Settled orders
// ---------------------------------------------------------------------------

/// Every dependency of the name at position `i` stands at an earlier position.
pub open spec fn served(g: Graph, o: Seq<Text>, i: int) -> bool {
    forall|d: Text| #[trigger] g[o[i]].contains(d) ==> o.take(i).contains(d)
}

/// An order in which no name comes twice, every name is defined, and every name stands behind
/// all that it depends on.
pub open spec fn settled(g: Graph, o: Seq<Text>) -> bool {
    &&& o.no_duplicates()
    &&& forall|i: int| 0 <= i < o.len() ==> g.contains_key(#[trigger] o[i])
    &&& forall|i: int| 0 <= i < o.len() ==> #[trigger] served(g, o, i)
}

/// No name of `path` stands in `o`.
pub open spec fn apart(path: Seq<Text>, o: Seq<Text>) -> bool {
    forall|n: Text| !(#[trigger] path.contains(n) && o.contains(n))
}

/// A name that is settled unfolds without a fault into names that are settled no later.
pub proof fn lemma_settled_walk(g: Graph, o: Seq<Text>, path: Seq<Text>, i: int)
    requires
        g.dom().finite(),
        settled(g, o),
        0 <= i < o.len(),
        apart(path, o.take(i + 1)),
    ensures
        walk(g, path, o[i]) is Ok,
        forall|k: int|
            0 <= k < walk(g, path, o[i])->Ok_0.len() ==> o.take(i + 1).contains(
                #[trigger] walk(g, path, o[i])->Ok_0[k],
            ),
    decreases i, 1nat, 0nat,
{
    let n = o[i];
    assert(o.take(i + 1)[i] == n);
    assert(!path.contains(n));
    assert(g.contains_key(n));
    assert(served(g, o, i));
    let ds = g[n];
    assert forall|k: int| 0 <= k < ds.len() implies o.take(i).contains(#[trigger] ds[k]) by {
        assert(ds.contains(ds[k]));
    }
    assert forall|x: Text| !(#[trigger] path.push(n).contains(x) && o.take(i).contains(x)) by {
        if path.push(n).contains(x) && o.take(i).contains(x) {
            let j = o.take(i).index_of(x);
            assert(o[j] == x);
            assert(o.take(i + 1)[j] == x);
            if x != n {
                assert(path[path.push(n).index_of(x)] == x);
                assert(path.contains(x));
            }
        }
    }
    lemma_settled_walk_all(g, o, path.push(n), ds, i);
    let t = walk_all(g, path.push(n), ds)->Ok_0;
    let s = walk(g, path, n)->Ok_0;
    assert(s == t.push(n));
    assert forall|k: int| 0 <= k < s.len() implies o.take(i + 1).contains(#[trigger] s[k]) by {
        if k < t.len() {
            assert(s[k] == t[k]);
            let j = o.take(i).index_of(t[k]);
            assert(o.take(i + 1)[j] == t[k]);
        }
    }
}

proof fn lemma_settled_walk_all(g: Graph, o: Seq<Text>, path: Seq<Text>, ns: Seq<Text>, i: int)
    requires
        g.dom().finite(),
        settled(g, o),
        0 <= i < o.len(),
        apart(path, o.take(i)),
        forall|k: int| 0 <= k < ns.len() ==> o.take(i).contains(#[trigger] ns[k]),
    ensures
        walk_all(g, path, ns) is Ok,
        forall|k: int|
            0 <= k < walk_all(g, path, ns)->Ok_0.len() ==> o.take(i).contains(
                #[trigger] walk_all(g, path, ns)->Ok_0[k],
            ),
    decreases i, 0nat, ns.len(),
{
    if ns.len() > 0 {
        let rest = ns.drop_last();
        assert forall|k: int| 0 <= k < rest.len() implies o.take(i).contains(#[trigger] rest[k]) by {
            assert(ns[k] == rest[k]);
        }
        lemma_settled_walk_all(g, o, path, rest, i);
        assert(o.take(i).contains(ns[ns.len() - 1]));
        let j = o.take(i).index_of(ns.last());
        assert(o[j] == ns.last());
        assert forall|x: Text| !(#[trigger] path.contains(x) && o.take(j + 1).contains(x)) by {
            if o.take(j + 1).contains(x) {
                let k = o.take(j + 1).index_of(x);
                assert(o.take(i)[k] == x);
            }
        }
        lemma_settled_walk(g, o, path, j);
        let s = walk_all(g, path, rest)->Ok_0;
        let t = walk(g, path, ns.last())->Ok_0;
        assert forall|k: int| 0 <= k < (s + t).len() implies o.take(i).contains(
            #[trigger] (s + t)[k],
        ) by {
            if k >= s.len() {
                let x = t[k - s.len()];
                assert(o.take(j + 1).contains(x));
                let m = o.take(j + 1).index_of(x);
                assert(o.take(i)[m] == x);
            } else {
                assert((s + t)[k] == s[k]);
            }
        }
    }
}

/// The unfolding of a settled name adds nothing to the order that settles it.
pub proof fn lemma_settled_adds_nothing(g: Graph, o: Seq<Text>, path: Seq<Text>, n: Text)
    requires
        g.dom().finite(),
        settled(g, o),
        apart(path, o),
        o.contains(n),
    ensures
        walk(g, path, n) is Ok,
        extend(o, walk(g, path, n)->Ok_0) == o,
{
    let i = o.index_of(n);
    assert forall|x: Text| !(#[trigger] path.contains(x) && o.take(i + 1).contains(x)) by {
        if o.take(i + 1).contains(x) {
            let k = o.take(i + 1).index_of(x);
            assert(o[k] == x);
        }
    }
    lemma_settled_walk(g, o, path, i);
    let s = walk(g, path, n)->Ok_0;
    assert forall|k: int| 0 <= k < s.len() implies o.contains(#[trigger] s[k]) by {
        assert(o.take(i + 1).contains(s[k]));
        let m = o.take(i + 1).index_of(s[k]);
        assert(o[m] == s[k]);
    }
    lemma_extend_none(o, s);
}

/// A settled order stays settled when a defined name that it lacks comes behind all of that
/// name's dependencies.
pub proof fn lemma_settled_push(g: Graph, o: Seq<Text>, n: Text)
    requires
        settled(g, o),
        g.contains_key(n),
        !o.contains(n),
        forall|d: Text| #[trigger] g[n].contains(d) ==> o.contains(d),
    ensures
        settled(g, o.push(n)),
{
    let p = o.push(n);
    assert forall|i: int| 0 <= i < p.len() implies #[trigger] served(g, p, i) by {
        assert(p.take(i) =~= o.take(i));
        if i < o.len() {
            assert(served(g, o, i));
            assert(p[i] == o[i]);
        } else {
            assert(o.take(i) =~= o);
        }
    }
    assert forall|i: int, j: int| 0 <= i < p.len() && 0 <= j < p.len() && i != j implies p[i]
        != p[j] by {
        if i < o.len() && j < o.len() {
            assert(p[i] == o[i] && p[j] == o[j]);
        } else if i < o.len() {
            assert(o.contains(o[i]));
        } else {
            assert(o.contains(o[j]));
        }
    }
    assert forall|i: int| 0 <= i < p.len() implies g.contains_key(#[trigger] p[i]) by {
        if i < o.len() {
            assert(p[i] == o[i]);
        }
    }
}

/// An unfolding extends a settled order to a settled order that holds the name unfolded and
/// none of the names on the path.
pub proof fn lemma_walk_settles(g: Graph, path: Seq<Text>, n: Text, o: Seq<Text>)
    requires
        g.dom().finite(),
        settled(g, o),
        apart(path, o),
        walk(g, path, n) is Ok,
    ensures
        settled(g, extend(o, walk(g, path, n)->Ok_0)),
        apart(path, extend(o, walk(g, path, n)->Ok_0)),
        extend(o, walk(g, path, n)->Ok_0).contains(n),
    decreases fresh(g, path), 0nat,
{
    let s = walk(g, path, n)->Ok_0;
    if o.contains(n) {
        lemma_settled_adds_nothing(g, o, path, n);
    } else {
        lemma_fresh_push(g, path, n);
        let inner = path.push(n);
        assert forall|x: Text| !(#[trigger] inner.contains(x) && o.contains(x)) by {
            if inner.contains(x) && x != n {
                assert(path[inner.index_of(x)] == x);
                assert(path.contains(x));
            }
        }
        lemma_walk_all_settles(g, inner, g[n], o);
        let t = walk_all(g, inner, g[n])->Ok_0;
        let p = extend(o, t);
        assert(s == t.push(n));
        assert(s.drop_last() =~= t);
        assert(inner[path.len() as int] == n);
        assert(inner.contains(n));
        assert(extend(o, s) == p.push(n));
        assert forall|d: Text| #[trigger] g[n].contains(d) implies p.contains(d) by {
            let k = g[n].index_of(d);
            assert(p.contains(g[n][k]));
        }
        lemma_settled_push(g, p, n);
        assert(p.push(n)[p.len() as int] == n);
        assert forall|x: Text| !(#[trigger] path.contains(x) && p.push(n).contains(x)) by {
            if path.contains(x) && p.push(n).contains(x) {
                assert(inner[path.index_of(x)] == x);
                assert(inner.contains(x));
                assert(p[p.push(n).index_of(x)] == x);
                assert(p.contains(x));
            }
        }
    }
}

/// The same for several names, one behind the other.
pub proof fn lemma_walk_all_settles(g: Graph, path: Seq<Text>, ns: Seq<Text>, o: Seq<Text>)
    requires
        g.dom().finite(),
        settled(g, o),
        apart(path, o),
        walk_all(g, path, ns) is Ok,
    ensures
        settled(g, extend(o, walk_all(g, path, ns)->Ok_0)),
        apart(path, extend(o, walk_all(g, path, ns)->Ok_0)),
        forall|k: int|
            0 <= k < ns.len() ==> extend(o, walk_all(g, path, ns)->Ok_0).contains(#[trigger] ns[k]),
    decreases fresh(g, path), ns.len() + 1,
{
    if ns.len() > 0 {
        let rest = ns.drop_last();
        lemma_walk_all_settles(g, path, rest, o);
        let s = walk_all(g, path, rest)->Ok_0;
        let t = walk(g, path, ns.last())->Ok_0;
        let p = extend(o, s);
        lemma_walk_settles(g, path, ns.last(), p);
        lemma_extend_add(o, s, t);
        assert forall|k: int| 0 <= k < ns.len() implies extend(p, t).contains(#[trigger] ns[k]) by {
            if k < rest.len() {
                assert(rest[k] == ns[k]);
                lemma_extend_contains(p, t, ns[k]);
            }
        }
    }
}

// ---------------------------------------------------------------------------
// Chains
// ---------------------------------------------------------------------------

/// A chain of names, each of which depends on the next.
pub open spec fn chain(g: Graph, p: Seq<Text>) -> bool {
    &&& p.len() > 0
    &&& forall|i: int|
        0 <= i < p.len() - 1 ==> g.contains_key(#[trigger] p[i]) && g[p[i]].contains(p[i + 1])
}

/// `a` is `b`, or depends on it directly or through others.
pub open spec fn needs(g: Graph, a: Text, b: Text) -> bool {
    exists|p: Seq<Text>| #[trigger] chain(g, p) && p.first() == a && p.last() == b
}

/// `n` is one of `roots` or something that a root depends on.
pub open spec fn needed(g: Graph, roots: Seq<Text>, n: Text) -> bool {
    exists|r: Text| #[trigger] roots.contains(r) && needs(g, r, n)
}

/// `n` depends on itself, directly or through others.
pub open spec fn on_cycle(g: Graph, n: Text) -> bool {
    exists|p: Seq<Text>|
        #[trigger] chain(g, p) && p.len() > 1 && p.first() == n && p.last() == n
}

/// Everything that the roots need is defined, and none of it depends on itself.
pub open spec fn startable(g: Graph, roots: Seq<Text>) -> bool {
    forall|n: Text| #[trigger] needed(g, roots, n) ==> g.contains_key(n) && !on_cycle(g, n)
}

proof fn lemma_chain_push(g: Graph, p: Seq<Text>, n: Text)
    requires
        chain(g, p),
        g.contains_key(p.last()),
        g[p.last()].contains(n),
    ensures
        chain(g, p.push(n)),
{
    let q = p.push(n);
    assert forall|i: int| 0 <= i < q.len() - 1 implies g.contains_key(#[trigger] q[i])
        && g[q[i]].contains(q[i + 1]) by {
        assert(q[i] == p[i]);
        if i < p.len() - 1 {
            assert(q[i + 1] == p[i + 1]);
        }
    }
}

proof fn lemma_chain_sub(g: Graph, p: Seq<Text>, a: int, b: int)
    requires
        chain(g, p),
        0 <= a < b <= p.len(),
    ensures
        chain(g, p.subrange(a, b)),
{
    let q = p.subrange(a, b);
    assert forall|i: int| 0 <= i < q.len() - 1 implies g.contains_key(#[trigger] q[i])
        && g[q[i]].contains(q[i + 1]) by {
        assert(q[i] == p[a + i]);
        assert(q[i + 1] == p[a + i + 1]);
    }
}

proof fn lemma_needs_self(g: Graph, n: Text)
    ensures
        needs(g, n, n),
{
    assert(chain(g, seq![n]));
}

proof fn lemma_needs_step(g: Graph, a: Text, b: Text, c: Text)
    requires
        needs(g, a, b),
        g.contains_key(b),
        g[b].contains(c),
    ensures
        needs(g, a, c),
{
    let p = choose|p: Seq<Text>| #[trigger] chain(g, p) && p.first() == a && p.last() == b;
    lemma_chain_push(g, p, c);
    assert(p.push(c).first() == a && p.push(c).last() == c);
}

/// What a fault says is true: the name that it gives is needed, and it is not defined or
/// depends on itself.
proof fn lemma_fault_walk(g: Graph, path: Seq<Text>, n: Text)
    requires
        g.dom().finite(),
        chain(g, path.push(n)),
        walk(g, path, n) is Err,
    ensures
        match walk(g, path, n)->Err_0 {
            Fault::Cycle(m) => needs(g, path.push(n).first(), m) && on_cycle(g, m),
            Fault::Undefined(m) => needs(g, path.push(n).first(), m) && !g.contains_key(m),
        },
    decreases fresh(g, path), 0nat,
{
    let q = path.push(n);
    assert(q.last() == n);
    if path.contains(n) {
        let i = path.index_of(n);
        lemma_chain_sub(g, q, i, q.len() as int);
        let c = q.subrange(i, q.len() as int);
        assert(c.first() == n && c.last() == n && c.len() > 1);
        assert(needs(g, q.first(), n));
    } else if !g.contains_key(n) {
        assert(needs(g, q.first(), n));
    } else {
        lemma_fresh_push(g, path, n);
        assert forall|k: int| 0 <= k < g[n].len() implies chain(g, #[trigger] q.push(g[n][k])) by {
            assert(g[n].contains(g[n][k]));
            lemma_chain_push(g, q, g[n][k]);
        }
        lemma_fault_walk_all(g, q, g[n]);
    }
}

proof fn lemma_fault_walk_all(g: Graph, path: Seq<Text>, ns: Seq<Text>)
    requires
        g.dom().finite(),
        path.len() > 0,
        forall|k: int| 0 <= k < ns.len() ==> chain(g, #[trigger] path.push(ns[k])),
        walk_all(g, path, ns) is Err,
    ensures
        match walk_all(g, path, ns)->Err_0 {
            Fault::Cycle(m) => needs(g, path.first(), m) && on_cycle(g, m),
            Fault::Undefined(m) => needs(g, path.first(), m) && !g.contains_key(m),
        },
    decreases fresh(g, path), ns.len() + 1,
{
    if ns.len() > 0 {
        let rest = ns.drop_last();
        if walk_all(g, path, rest) is Err {
            assert forall|k: int| 0 <= k < rest.len() implies chain(
                g,
                #[trigger] path.push(rest[k]),
            ) by {
                assert(path.push(ns[k]) == path.push(rest[k]));
            }
            lemma_fault_walk_all(g, path, rest);
        } else {
            assert(chain(g, path.push(ns[ns.len() - 1])));
            lemma_fault_walk(g, path, ns.last());
            assert(path.push(ns.last()).first() == path.first());
        }
    }
}

proof fn lemma_fault_roots(g: Graph, roots: Seq<Text>)
    requires
        g.dom().finite(),
        walk_all(g, Seq::empty(), roots) is Err,
    ensures
        match walk_all(g, Seq::empty(), roots)->Err_0 {
            Fault::Cycle(m) => needed(g, roots, m) && on_cycle(g, m),
            Fault::Undefined(m) => needed(g, roots, m) && !g.contains_key(m),
        },
    decreases roots.len(),
{
    let none = Seq::<Text>::empty();
    if roots.len() > 0 {
        let rest = roots.drop_last();
        if walk_all(g, none, rest) is Err {
            lemma_fault_roots(g, rest);
            let m = match walk_all(g, none, rest)->Err_0 {
                Fault::Cycle(m) => m,
                Fault::Undefined(m) => m,
            };
            let r = choose|r: Text| #[trigger] rest.contains(r) && needs(g, r, m);
            assert(roots[rest.index_of(r)] == r);
            assert(roots.contains(r));
        } else {
            let r = roots.last();
            assert(roots[roots.len() - 1] == r);
            assert(none.push(r) =~= seq![r]);
            lemma_fault_walk(g, none, r);
            assert(roots.contains(r));
        }
    }
}

/// Everything in an unfolding is needed by the name unfolded.
proof fn lemma_walk_needed(g: Graph, path: Seq<Text>, n: Text, a: Text)
    requires
        g.dom().finite(),
        needs(g, a, n),
        walk(g, path, n) is Ok,
    ensures
        forall|k: int|
            0 <= k < walk(g, path, n)->Ok_0.len() ==> needs(
                g,
                a,
                #[trigger] walk(g, path, n)->Ok_0[k],
            ),
    decreases fresh(g, path), 0nat,
{
    lemma_fresh_push(g, path, n);
    assert forall|k: int| 0 <= k < g[n].len() implies needs(g, a, #[trigger] g[n][k]) by {
        assert(g[n].contains(g[n][k]));
        lemma_needs_step(g, a, n, g[n][k]);
    }
    lemma_walk_all_needed(g, path.push(n), g[n], a);
    let t = walk_all(g, path.push(n), g[n])->Ok_0;
    let s = walk(g, path, n)->Ok_0;
    assert forall|k: int| 0 <= k < s.len() implies needs(g, a, #[trigger] s[k]) by {
        if k < t.len() {
            assert(s[k] == t[k]);
        }
    }
}

proof fn lemma_walk_all_needed(g: Graph, path: Seq<Text>, ns: Seq<Text>, a: Text)
    requires
        g.dom().finite(),
        forall|k: int| 0 <= k < ns.len() ==> needs(g, a, #[trigger] ns[k]),
        walk_all(g, path, ns) is Ok,
    ensures
        forall|k: int|
            0 <= k < walk_all(g, path, ns)->Ok_0.len() ==> needs(
                g,
                a,
                #[trigger] walk_all(g, path, ns)->Ok_0[k],
            ),
    decreases fresh(g, path), ns.len() + 1,
{
    if ns.len() > 0 {
        let rest = ns.drop_last();
        assert forall|k: int| 0 <= k < rest.len() implies needs(g, a, #[trigger] rest[k]) by {
            assert(rest[k] == ns[k]);
        }
        lemma_walk_all_needed(g, path, rest, a);
        assert(needs(g, a, ns[ns.len() - 1]));
        lemma_walk_needed(g, path, ns.last(), a);
        let s = walk_all(g, path, rest)->Ok_0;
        let t = walk(g, path, ns.last())->Ok_0;
        assert forall|k: int| 0 <= k < (s + t).len() implies needs(g, a, #[trigger] (s + t)[k]) by {
            if k < s.len() {
                assert((s + t)[k] == s[k]);
            } else {
                assert((s + t)[k] == t[k - s.len()]);
            }
        }
    }
}

proof fn lemma_roots_needed(g: Graph, roots: Seq<Text>)
    requires
        g.dom().finite(),
        walk_all(g, Seq::empty(), roots) is Ok,
    ensures
        forall|k: int|
            0 <= k < walk_all(g, Seq::empty(), roots)->Ok_0.len() ==> needed(
                g,
                roots,
                #[trigger] walk_all(g, Seq::empty(), roots)->Ok_0[k],
            ),
    decreases roots.len(),
{
    let none = Seq::<Text>::empty();
    if roots.len() > 0 {
        let rest = roots.drop_last();
        lemma_roots_needed(g, rest);
        let r = roots.last();
        lemma_needs_self(g, r);
        lemma_walk_needed(g, none, r, r);
        let s = walk_all(g, none, rest)->Ok_0;
        let t = walk(g, none, r)->Ok_0;
        assert forall|k: int| 0 <= k < (s + t).len() implies needed(
            g,
            roots,
            #[trigger] (s + t)[k],
        ) by {
            if k < s.len() {
                assert((s + t)[k] == s[k]);
                let q = choose|q: Text| #[trigger] rest.contains(q) && needs(g, q, s[k]);
                assert(roots[rest.index_of(q)] == q);
                assert(roots.contains(q));
            } else {
                assert((s + t)[k] == t[k - s.len()]);
                assert(roots[roots.len() - 1] == r);
                assert(roots.contains(r));
            }
        }
    }
}

/// Along a chain that starts in a settled order, every name stands in the order, and each
/// behind the next.
proof fn lemma_chain_in_settled(g: Graph, o: Seq<Text>, p: Seq<Text>, i: int)
    requires
        settled(g, o),
        chain(g, p),
        o.contains(p.first()),
        0 <= i < p.len(),
    ensures
        o.contains(p[i]),
        i > 0 ==> o.index_of(p[i]) < o.index_of(p.first()),
    decreases i,
{
    if i > 0 {
        lemma_chain_in_settled(g, o, p, i - 1);
        let a = p[i - 1];
        let k = o.index_of(a);
        assert(o[k] == a);
        assert(g[p[i - 1]].contains(p[i - 1 + 1]));
        assert(served(g, o, k));
        assert(o.take(k).contains(p[i]));
        let j = o.take(k).index_of(p[i]);
        assert(o[j] == p[i]);
        assert(o.index_of(p[i]) == j);
    }
}

// ---------------------------------------------------------------------------
// Laws
// ---------------------------------------------------------------------------

/// A start order holds every name once, and every name behind all that it depends on.
pub proof fn law_dependencies_come_first(g: Graph, roots: Seq<Text>)
    requires
        g.dom().finite(),
        plan(g, roots) is Ok,
    ensures
        plan(g, roots)->Ok_0.no_duplicates(),
        forall|i: int|
            0 <= i < plan(g, roots)->Ok_0.len() ==> g.contains_key(
                #[trigger] plan(g, roots)->Ok_0[i],
            ),
        forall|i: int, d: Text|
            0 <= i < plan(g, roots)->Ok_0.len() && #[trigger] g[plan(g, roots)->Ok_0[i]].contains(d)
                ==> plan(g, roots)->Ok_0.take(i).contains(d),
{
    lemma_plan_settled(g, roots);
    let o = plan(g, roots)->Ok_0;
    assert forall|i: int, d: Text| 0 <= i < o.len() && #[trigger] g[o[i]].contains(d) implies o.take(
        i,
    ).contains(d) by {
        assert(served(g, o, i));
    }
}

pub proof fn lemma_plan_settled(g: Graph, roots: Seq<Text>)
    requires
        g.dom().finite(),
        plan(g, roots) is Ok,
    ensures
        settled(g, plan(g, roots)->Ok_0),
        forall|k: int| 0 <= k < roots.len() ==> plan(g, roots)->Ok_0.contains(#[trigger] roots[k]),
{
    let none = Seq::<Text>::empty();
    assert(settled(g, none));
    assert(apart(none, none));
    lemma_walk_all_settles(g, none, roots, none);
}

/// A start order holds the transitive closure of the roots: each of them, everything that they
/// depend on directly or through others, and nothing else.
pub proof fn law_order_is_the_closure(g: Graph, roots: Seq<Text>, n: Text)
    requires
        g.dom().finite(),
        plan(g, roots) is Ok,
    ensures
        plan(g, roots)->Ok_0.contains(n) <==> needed(g, roots, n),
{
    let none = Seq::<Text>::empty();
    let s = walk_all(g, none, roots)->Ok_0;
    let o = plan(g, roots)->Ok_0;
    lemma_plan_settled(g, roots);
    lemma_extend_contains(none, s, n);
    if o.contains(n) {
        assert(s.contains(n));
        lemma_roots_needed(g, roots);
        let k = s.index_of(n);
        assert(needed(g, roots, s[k]));
    }
    if needed(g, roots, n) {
        let r = choose|r: Text| #[trigger] roots.contains(r) && needs(g, r, n);
        let p = choose|p: Seq<Text>| #[trigger] chain(g, p) && p.first() == r && p.last() == n;
        assert(o.contains(roots[roots.index_of(r)]));
        lemma_chain_in_settled(g, o, p, p.len() - 1);
    }
}

/// There is a start order exactly where everything needed is defined and nothing needed
/// depends on itself; and where there is none, the fault names a needed name that is not
/// defined, or one that depends on itself.
pub proof fn law_order_exists_iff_startable(g: Graph, roots: Seq<Text>)
    requires
        g.dom().finite(),
    ensures
        plan(g, roots) is Ok <==> startable(g, roots),
        match plan(g, roots) {
            Ok(_) => true,
            Err(Fault::Cycle(m)) => needed(g, roots, m) && on_cycle(g, m),
            Err(Fault::Undefined(m)) => needed(g, roots, m) && !g.contains_key(m),
        },
{
    if plan(g, roots) is Ok {
        let o = plan(g, roots)->Ok_0;
        lemma_plan_settled(g, roots);
        assert forall|n: Text| #[trigger] needed(g, roots, n) implies g.contains_key(n) && !on_cycle(
            g,
            n,
        ) by {
            law_order_is_the_closure(g, roots, n);
            assert(g.contains_key(o[o.index_of(n)]));
            if on_cycle(g, n) {
                let p = choose|p: Seq<Text>|
                    #[trigger] chain(g, p) && p.len() > 1 && p.first() == n && p.last() == n;
                lemma_chain_in_settled(g, o, p, p.len() - 1);
            }
        }
    } else {
        lemma_fault_roots(g, roots);
    }
}

/// Roots are ordered one behind the other. Without roots nothing is ordered. One more root leaves
/// the order of those before it as it is, and adds behind it what this root alone would be
/// ordered with, in that order, but for what is there already. The first root that cannot be
/// ordered decides.
pub proof fn law_roots_are_ordered_one_behind_the_other(g: Graph, roots: Seq<Text>, n: Text)
    requires
        g.dom().finite(),
    ensures
        plan(g, Seq::empty()) == Ok::<Seq<Text>, Fault>(Seq::empty()),
        match (plan(g, roots), plan(g, seq![n])) {
            (Err(f), _) => plan(g, roots.push(n)) == Err::<Seq<Text>, Fault>(f),
            (Ok(_), Err(f)) => plan(g, roots.push(n)) == Err::<Seq<Text>, Fault>(f),
            (Ok(o), Ok(p)) => plan(g, roots.push(n)) == Ok::<Seq<Text>, Fault>(
                o + p.filter(|x: Text| !o.contains(x)),
            ),
        },
{
    let none = Seq::<Text>::empty();
    assert(roots.push(n).drop_last() =~= roots);
    assert(seq![n].drop_last() =~= none);
    assert(walk_all(g, none, none) == Ok::<Seq<Text>, Fault>(none));
    if let Ok(t) = walk(g, none, n) {
        assert(none + t =~= t);
        if let Ok(s) = walk_all(g, none, roots) {
            lemma_extend_add(none, s, t);
            lemma_extend_is_filter(extend(none, s), t);
        }
    }
}

/// Extending an order adds what the sequence would be ordered to alone, but for what is there.
proof fn lemma_extend_is_filter(o: Seq<Text>, s: Seq<Text>)
    ensures
        extend(o, s) == o + extend(Seq::empty(), s).filter(|x: Text| !o.contains(x)),
    decreases s.len(),
{
    let none = Seq::<Text>::empty();
    let missing = |x: Text| !o.contains(x);
    reveal(Seq::filter);
    if s.len() == 0 {
        assert(o + none =~= o);
    } else {
        let d = s.drop_last();
        let z = s.last();
        lemma_extend_is_filter(o, d);
        lemma_extend_contains(o, d, z);
        lemma_extend_contains(none, d, z);
        let e = extend(none, d);
        if !e.contains(z) {
            assert(e.push(z).drop_last() =~= e);
            if missing(z) {
                assert(o + e.filter(missing).push(z) =~= (o + e.filter(missing)).push(z));
            }
        }
    }
}

/// A name that can be ordered comes right behind what it depends on, which is ordered as it is
/// listed. One that is not defined is the fault itself.
pub proof fn law_a_name_comes_behind_what_it_lists(g: Graph, n: Text)
    requires
        g.dom().finite(),
    ensures
        !g.contains_key(n) ==> plan(g, seq![n]) == Err::<Seq<Text>, Fault>(Fault::Undefined(n)),
        plan(g, seq![n]) is Ok ==> {
            &&& g.contains_key(n)
            &&& plan(g, g[n]) is Ok
            &&& plan(g, seq![n])->Ok_0 == plan(g, g[n])->Ok_0.push(n)
        },
{
    let none = Seq::<Text>::empty();
    let path = seq![n];
    lemma_walk_one(g, none, n);
    assert(none.push(n) =~= path);
    assert(!none.contains(n));
    if let Ok(t) = walk(g, none, n) {
        let s = walk_all(g, path, g[n])->Ok_0;
        assert(t == s.push(n));
        lemma_walk_all_path(g, path, none, g[n]);
        assert(settled(g, none));
        assert(apart(path, none));
        lemma_walk_all_settles(g, path, g[n], none);
        assert(path.contains(path[0]));
        assert(!extend(none, s).contains(n));
        assert(s.push(n).drop_last() =~= s);
    }
}

/// The walk of one name alone is the walk of that name.
proof fn lemma_walk_one(g: Graph, path: Seq<Text>, n: Text)
    requires
        g.dom().finite(),
    ensures
        walk_all(g, path, seq![n]) == walk(g, path, n),
{
    let none = Seq::<Text>::empty();
    assert(seq![n].drop_last() =~= none);
    assert(walk_all(g, path, none) == Ok::<Seq<Text>, Fault>(none));
    if let Ok(t) = walk(g, path, n) {
        assert(none + t =~= t);
    }
}

/// A walk that succeeds does not depend on the path that it came along.
proof fn lemma_walk_path(g: Graph, path: Seq<Text>, other: Seq<Text>, n: Text)
    requires
        g.dom().finite(),
        forall|x: Text| #[trigger] other.contains(x) ==> path.contains(x),
        walk(g, path, n) is Ok,
    ensures
        walk(g, other, n) == walk(g, path, n),
    decreases fresh(g, path), 0nat,
{
    lemma_fresh_push(g, path, n);
    assert(!other.contains(n));
    assert forall|x: Text| #[trigger] other.push(n).contains(x) implies path.push(n).contains(x) by {
        let k = other.push(n).index_of(x);
        if k < other.len() {
            assert(other[k] == x);
            assert(other.contains(x));
            assert(path.push(n)[path.index_of(x)] == x);
        } else {
            assert(path.push(n)[path.len() as int] == x);
        }
    }
    lemma_walk_all_path(g, path.push(n), other.push(n), g[n]);
}

proof fn lemma_walk_all_path(g: Graph, path: Seq<Text>, other: Seq<Text>, ns: Seq<Text>)
    requires
        g.dom().finite(),
        forall|x: Text| #[trigger] other.contains(x) ==> path.contains(x),
        walk_all(g, path, ns) is Ok,
    ensures
        walk_all(g, other, ns) == walk_all(g, path, ns),
    decreases fresh(g, path), ns.len() + 1,
{
    if ns.len() > 0 {
        lemma_walk_all_path(g, path, other, ns.drop_last());
        lemma_walk_path(g, path, other, ns.last());
    }
}

/// The fault that is reported is the first that the walk meets. Where each name of `p` lists the
/// next one first, and the last lists `m` first, the walk from the first name ends at `m`: with a
/// cycle that involves `m` if `m` stands in `p`, and with `m` undefined if it is.
pub proof fn law_the_first_fault_is_reported(g: Graph, p: Seq<Text>, m: Text)
    requires
        g.dom().finite(),
        p.len() > 0,
        p.no_duplicates(),
        forall|k: int| 0 <= k < p.len() ==> g.contains_key(#[trigger] p[k]) && g[p[k]].len() > 0,
        forall|k: int| 0 <= k < p.len() - 1 ==> g[#[trigger] p[k]][0] == p[k + 1],
        g[p.last()][0] == m,
    ensures
        p.contains(m) ==> plan(g, seq![p[0]]) == Err::<Seq<Text>, Fault>(Fault::Cycle(m)),
        !g.contains_key(m) ==> plan(g, seq![p[0]]) == Err::<Seq<Text>, Fault>(Fault::Undefined(m)),
{
    let none = Seq::<Text>::empty();
    lemma_walk_one(g, none, p[0]);
    if p.contains(m) || !g.contains_key(m) {
        lemma_faulty_chain(g, p, m, 0);
        assert(p.take(0) =~= none);
    }
}

proof fn lemma_faulty_chain(g: Graph, p: Seq<Text>, m: Text, i: int)
    requires
        g.dom().finite(),
        0 <= i < p.len(),
        p.no_duplicates(),
        forall|k: int| 0 <= k < p.len() ==> g.contains_key(#[trigger] p[k]) && g[p[k]].len() > 0,
        forall|k: int| 0 <= k < p.len() - 1 ==> g[#[trigger] p[k]][0] == p[k + 1],
        g[p.last()][0] == m,
        p.contains(m) || !g.contains_key(m),
    ensures
        walk(g, p.take(i), p[i]) == Err::<Seq<Text>, Fault>(
            if p.contains(m) {
                Fault::Cycle(m)
            } else {
                Fault::Undefined(m)
            },
        ),
    decreases p.len() - i,
{
    let path = p.take(i);
    let n = p[i];
    if path.contains(n) {
        let k = path.index_of(n);
        assert(p[k] == p[i]);
    }
    let inner = path.push(n);
    assert(inner =~= p.take(i + 1));
    let ds = g[n];
    lemma_fresh_push(g, path, n);
    let one = ds.take(1);
    assert(one =~= seq![ds[0]]);
    lemma_walk_one(g, inner, ds[0]);
    if i < p.len() - 1 {
        lemma_faulty_chain(g, p, m, i + 1);
        assert(ds[0] == p[i + 1]);
    } else {
        assert(inner =~= p);
        assert(ds[0] == m);
    }
    assert(walk_all(g, inner, one) is Err);
    lemma_walk_all_err(g, inner, ds, 1);
}


/// The same where the faulty name is not listed first: as long as everything that is listed in
/// front of it, at every name on the way, can be ordered, the fault is the one at the end of the
/// way. `p` is the way, and `at` says where each name of it lists the next one.
pub proof fn law_what_can_be_ordered_does_not_hide_a_fault(
    g: Graph,
    p: Seq<Text>,
    at: Seq<int>,
    m: Text,
)
    requires
        g.dom().finite(),
        p.len() > 0,
        at.len() == p.len(),
        p.no_duplicates(),
        forall|k: int|
            0 <= k < p.len() ==> g.contains_key(#[trigger] p[k]) && 0 <= at[k] < g[p[k]].len(),
        forall|k: int| 0 <= k < p.len() - 1 ==> g[#[trigger] p[k]][at[k]] == p[k + 1],
        g[p.last()][at.last()] == m,
        forall|k: int, i: int|
            0 <= k < p.len() && 0 <= i < at[k] ==> plan(g, seq![#[trigger] g[p[k]][i]]) is Ok,
    ensures
        p.contains(m) ==> plan(g, seq![p[0]]) == Err::<Seq<Text>, Fault>(Fault::Cycle(m)),
        !g.contains_key(m) ==> plan(g, seq![p[0]]) == Err::<Seq<Text>, Fault>(Fault::Undefined(m)),
{
    let none = Seq::<Text>::empty();
    lemma_walk_one(g, none, p[0]);
    if p.contains(m) || !g.contains_key(m) {
        lemma_faulty_way(g, p, at, m, 0);
        assert(p.take(0) =~= none);
    }
}

proof fn lemma_faulty_way(g: Graph, p: Seq<Text>, at: Seq<int>, m: Text, i: int)
    requires
        g.dom().finite(),
        0 <= i < p.len(),
        at.len() == p.len(),
        p.no_duplicates(),
        forall|k: int|
            0 <= k < p.len() ==> g.contains_key(#[trigger] p[k]) && 0 <= at[k] < g[p[k]].len(),
        forall|k: int| 0 <= k < p.len() - 1 ==> g[#[trigger] p[k]][at[k]] == p[k + 1],
        g[p.last()][at.last()] == m,
        forall|k: int, i: int|
            0 <= k < p.len() && 0 <= i < at[k] ==> plan(g, seq![#[trigger] g[p[k]][i]]) is Ok,
        p.contains(m) || !g.contains_key(m),
    ensures
        walk(g, p.take(i), p[i]) == Err::<Seq<Text>, Fault>(
            if p.contains(m) {
                Fault::Cycle(m)
            } else {
                Fault::Undefined(m)
            },
        ),
    decreases p.len() - i,
{
    let path = p.take(i);
    let n = p[i];
    if path.contains(n) {
        let k = path.index_of(n);
        assert(p[k] == p[i]);
    }
    let inner = path.push(n);
    assert(inner =~= p.take(i + 1));
    let ds = g[n];
    let j = at[i];
    lemma_fresh_push(g, path, n);
    assert forall|k: int| 0 <= k < j implies walk(g, inner, #[trigger] ds[k]) is Ok by {
        assert(plan(g, seq![g[p[i]][k]]) is Ok);
        lemma_sibling_walks(g, p, at, i, ds[k]);
    }
    lemma_walk_all_ok(g, inner, ds.take(j));
    if i < p.len() - 1 {
        lemma_faulty_way(g, p, at, m, i + 1);
        assert(ds[j] == p[i + 1]);
    } else {
        assert(inner =~= p);
        assert(ds[j] == m);
    }
    let some = ds.take(j + 1);
    assert(some.drop_last() =~= ds.take(j));
    assert(some.last() == ds[j]);
    assert(walk_all(g, inner, some) is Err);
    lemma_walk_all_err(g, inner, ds, j + 1);
}

proof fn lemma_walk_all_ok(g: Graph, path: Seq<Text>, ns: Seq<Text>)
    requires
        g.dom().finite(),
        forall|k: int| 0 <= k < ns.len() ==> walk(g, path, #[trigger] ns[k]) is Ok,
    ensures
        walk_all(g, path, ns) is Ok,
    decreases ns.len(),
{
    if ns.len() > 0 {
        let fewer = ns.drop_last();
        assert forall|k: int| 0 <= k < fewer.len() implies walk(g, path, #[trigger] fewer[k]) is Ok by {
            assert(fewer[k] == ns[k]);
        }
        lemma_walk_all_ok(g, path, fewer);
        assert(walk(g, path, ns[ns.len() - 1]) is Ok);
    }
}

/// What can be ordered, and is listed by the name at `i`, depends on nothing on the way there.
proof fn lemma_sibling_walks(g: Graph, p: Seq<Text>, at: Seq<int>, i: int, d: Text)
    requires
        g.dom().finite(),
        0 <= i < p.len(),
        at.len() == p.len(),
        forall|k: int|
            0 <= k < p.len() ==> g.contains_key(#[trigger] p[k]) && 0 <= at[k] < g[p[k]].len(),
        forall|k: int| 0 <= k < p.len() - 1 ==> g[#[trigger] p[k]][at[k]] == p[k + 1],
        g[p[i]].contains(d),
        plan(g, seq![d]) is Ok,
    ensures
        walk(g, p.take(i + 1), d) is Ok,
{
    let none = Seq::<Text>::empty();
    let inner = p.take(i + 1);
    lemma_walk_one(g, none, d);
    let t = walk(g, none, d)->Ok_0;
    assert forall|x: Text| #[trigger] t.contains(x) implies !inner.contains(x) by {
        if inner.contains(x) {
            let k = inner.index_of(x);
            lemma_extend_contains(none, t, x);
            law_order_is_the_closure(g, seq![d], x);
            let r = choose|r: Text| #[trigger] seq![d].contains(r) && needs(g, r, x);
            assert(r == d);
            let c = choose|c: Seq<Text>| #[trigger] chain(g, c) && c.first() == d && c.last() == x;
            let back = c + p.subrange(k + 1, i + 1) + seq![d];
            assert forall|a: int| 0 <= a < back.len() - 1 implies g.contains_key(
                #[trigger] back[a],
            ) && g[back[a]].contains(back[a + 1]) by {
                if a < c.len() - 1 {
                    assert(back[a] == c[a]);
                    assert(back[a + 1] == c[a + 1]);
                } else {
                    let b = k + (a - (c.len() - 1));
                    assert(back[a] == p[b]) by {
                        if a == c.len() - 1 {
                            assert(c[a] == x);
                        }
                    }
                    if b < i {
                        assert(back[a + 1] == p[b + 1]);
                        assert(g[p[b]][at[b]] == p[b + 1]);
                        assert(g[p[b]].contains(g[p[b]][at[b]]));
                    } else {
                        assert(back[a + 1] == d);
                    }
                }
            }
            assert(chain(g, back));
            assert(back.first() == d && back.last() == d && back.len() > 1);
            assert(on_cycle(g, d));
            law_order_exists_iff_startable(g, seq![d]);
            assert(seq![d][0] == d);
            assert(seq![d].contains(d));
            assert(chain(g, seq![d]));
            assert(seq![d].first() == d && seq![d].last() == d);
            assert(needs(g, d, d));
            assert(needed(g, seq![d], d));
        }
    }
    lemma_walk_elsewhere(g, none, inner, d);
}

/// A walk goes the same way along any path that it does not meet.
proof fn lemma_walk_elsewhere(g: Graph, path: Seq<Text>, other: Seq<Text>, n: Text)
    requires
        g.dom().finite(),
        walk(g, path, n) is Ok,
        forall|x: Text| #[trigger] walk(g, path, n)->Ok_0.contains(x) ==> !other.contains(x),
    ensures
        walk(g, other, n) == walk(g, path, n),
    decreases fresh(g, path), 0nat,
{
    let t = walk(g, path, n)->Ok_0;
    lemma_fresh_push(g, path, n);
    let s = walk_all(g, path.push(n), g[n])->Ok_0;
    assert(t == s.push(n));
    assert(t[s.len() as int] == n);
    assert(t.contains(n));
    assert forall|x: Text| #[trigger] s.contains(x) implies !other.push(n).contains(x) by {
        assert(t[s.index_of(x)] == x);
        assert(t.contains(x));
        lemma_walk_all_avoids(g, path.push(n), g[n], x);
        if other.push(n).contains(x) {
            let k = other.push(n).index_of(x);
            if k < other.len() {
                assert(other[k] == x);
            } else {
                assert(path.push(n)[path.len() as int] == x);
            }
        }
    }
    lemma_walk_all_elsewhere(g, path.push(n), other.push(n), g[n]);
}

proof fn lemma_walk_all_elsewhere(g: Graph, path: Seq<Text>, other: Seq<Text>, ns: Seq<Text>)
    requires
        g.dom().finite(),
        walk_all(g, path, ns) is Ok,
        forall|x: Text| #[trigger] walk_all(g, path, ns)->Ok_0.contains(x) ==> !other.contains(x),
    ensures
        walk_all(g, other, ns) == walk_all(g, path, ns),
    decreases fresh(g, path), ns.len() + 1,
{
    if ns.len() > 0 {
        let s = walk_all(g, path, ns.drop_last())->Ok_0;
        let t = walk(g, path, ns.last())->Ok_0;
        let all = walk_all(g, path, ns)->Ok_0;
        assert(all == s + t);
        assert forall|x: Text| #[trigger] s.contains(x) implies !other.contains(x) by {
            assert((s + t)[s.index_of(x)] == x);
            assert(all.contains(x));
        }
        assert forall|x: Text| #[trigger] t.contains(x) implies !other.contains(x) by {
            assert((s + t)[s.len() + t.index_of(x)] == x);
            assert(all.contains(x));
        }
        lemma_walk_all_elsewhere(g, path, other, ns.drop_last());
        lemma_walk_elsewhere(g, path, other, ns.last());
    }
}

/// A walk that succeeds meets no name of its path.
proof fn lemma_walk_all_avoids(g: Graph, path: Seq<Text>, ns: Seq<Text>, x: Text)
    requires
        g.dom().finite(),
        walk_all(g, path, ns) is Ok,
        walk_all(g, path, ns)->Ok_0.contains(x),
    ensures
        !path.contains(x),
{
    let none = Seq::<Text>::empty();
    assert(settled(g, none));
    assert(apart(path, none));
    lemma_walk_all_settles(g, path, ns, none);
    lemma_extend_contains(none, walk_all(g, path, ns)->Ok_0, x);
}

} // verus!
