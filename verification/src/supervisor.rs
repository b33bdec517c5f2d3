//! Components that depend on one another, and the order in which they start.

use vstd::prelude::*;
use vstd::string::*;

use crate::text::{concat2, concat3};

verus! {

/// What an error of a component means for the others.
#[derive(Clone, Copy, Debug, PartialEq, Eq, Structural)]
pub enum ErrorHandlingBehavior {
    /// All components shut down.
    ShouldShutdown,
    /// The component stays down, and the others go on.
    ShouldStop,
}

/// A component by its name, with the names of those that must start before it and the
/// policy that is asked about its errors.
pub struct SupervisedComponent<P> {
    pub name: String,
    pub deps: Vec<String>,
    pub on_error: P,
}

/// A set of components.
pub struct Supervisor<P> {
    pub components: Vec<SupervisedComponent<P>>,
}

/// The last of the first `n` components with the name; a later component of the
/// same name takes the place of an earlier one.
pub open spec fn find_name<P>(cs: Seq<SupervisedComponent<P>>, name: Seq<char>, n: int) -> Option<int>
    decreases n,
{
    if n <= 0 {
        None
    } else if cs[n - 1].name@ == name {
        Some(n - 1)
    } else {
        find_name(cs, name, n - 1)
    }
}

/// The component that a dependency names.
pub open spec fn resolve<P>(cs: Seq<SupervisedComponent<P>>, name: Seq<char>) -> Option<int> {
    find_name(cs, name, cs.len() as int)
}

/// A dependency: the first of the pair must start before the second.
pub type Edge = (int, int);

/// The first `k` dependencies of component `i`, or the first of them that names no
/// component.
pub open spec fn deps_of<P>(cs: Seq<SupervisedComponent<P>>, i: int, k: int) -> Result<Seq<Edge>, (int, int)>
    decreases k,
{
    if k <= 0 {
        Ok(Seq::empty())
    } else {
        match deps_of(cs, i, k - 1) {
            Err(e) => Err(e),
            Ok(es) => match resolve(cs, cs[i].deps@[k - 1]@) {
                Some(d) => Ok(es.push((d, i))),
                None => Err((i, k - 1)),
            },
        }
    }
}

/// The dependencies of the first `n` components, or the first one that names no
/// component.
pub open spec fn edges_of<P>(cs: Seq<SupervisedComponent<P>>, n: int) -> Result<Seq<Edge>, (int, int)>
    decreases n,
{
    if n <= 0 {
        Ok(Seq::empty())
    } else {
        match edges_of(cs, n - 1) {
            Err(e) => Err(e),
            Ok(es) => match deps_of(cs, n - 1, cs[n - 1].deps@.len() as int) {
                Err(e) => Err(e),
                Ok(more) => Ok(es + more),
            },
        }
    }
}

/// The search for an order: how many dependencies of each component are open, the
/// components that can start, and those that were started.
#[verifier::ext_equal]
pub struct Kahn {
    pub open: Seq<int>,
    pub ready: Seq<int>,
    pub order: Seq<int>,
}

/// How many of the first `m` dependencies are those of component `i`.
pub open spec fn in_degree(es: Seq<Edge>, i: int, m: int) -> int
    decreases m,
{
    if m <= 0 {
        0
    } else {
        in_degree(es, i, m - 1) + if es[m - 1].1 == i {
            1int
        } else {
            0int
        }
    }
}

/// The components below `n` without dependencies.
pub open spec fn roots(es: Seq<Edge>, n: int) -> Seq<int>
    decreases n,
{
    if n <= 0 {
        Seq::empty()
    } else if in_degree(es, n - 1, es.len() as int) == 0 {
        roots(es, n - 1).push(n - 1)
    } else {
        roots(es, n - 1)
    }
}

/// The start of the search.
pub open spec fn kahn_start(es: Seq<Edge>, n: int) -> Kahn {
    Kahn {
        open: Seq::new(n as nat, |i: int| in_degree(es, i, es.len() as int)),
        ready: roots(es, n),
        order: Seq::empty(),
    }
}

/// The first `j` dependencies looked through for those on `idx`, each of which is
/// no longer open; a component whose last one it was can start.
pub open spec fn relaxed(es: Seq<Edge>, idx: int, s: Kahn, j: int) -> Kahn
    decreases j,
{
    if j <= 0 {
        s
    } else {
        let t = relaxed(es, idx, s, j - 1);
        let (d, i) = es[j - 1];
        if d == idx {
            let left = t.open[i] - 1;
            Kahn {
                open: t.open.update(i, left),
                ready: if left == 0 {
                    t.ready.push(i)
                } else {
                    t.ready
                },
                ..t
            }
        } else {
            t
        }
    }
}

/// One step of the search: the component that became ready last is started.
pub open spec fn kahn_step(es: Seq<Edge>, s: Kahn) -> Kahn {
    if s.ready.len() == 0 {
        s
    } else {
        let idx = s.ready.last();
        relaxed(
            es,
            idx,
            Kahn { ready: s.ready.drop_last(), order: s.order.push(idx), ..s },
            es.len() as int,
        )
    }
}

/// The search after `k` steps.
pub open spec fn kahn(es: Seq<Edge>, n: int, k: int) -> Kahn
    decreases k,
{
    if k <= 0 {
        kahn_start(es, n)
    } else {
        kahn_step(es, kahn(es, n, k - 1))
    }
}

/// The order in which `n` components with these dependencies start. Where they
/// depend on one another in a circle, some are missing.
pub open spec fn start_order(es: Seq<Edge>, n: int) -> Seq<int> {
    kahn(es, n, n).order
}

/// Is a dependency still open? Those on `idx` are as far as they were not yet
/// looked at; any other is until the component it names has started.
pub open spec fn is_open(es: Seq<Edge>, order: Seq<int>, idx: int, j: int, t: int) -> bool {
    if es[t].0 == idx {
        t >= j
    } else {
        !order.contains(es[t].0)
    }
}

/// How many of the first `m` dependencies of component `i` are open.
pub open spec fn open_count(es: Seq<Edge>, order: Seq<int>, idx: int, j: int, i: int, m: int) -> int
    decreases m,
{
    if m <= 0 {
        0
    } else {
        open_count(es, order, idx, j, i, m - 1) + if es[m - 1].1 == i && is_open(
            es,
            order,
            idx,
            j,
            m - 1,
        ) {
            1int
        } else {
            0int
        }
    }
}

/// All dependencies are among `n` components.
pub open spec fn edges_ok(es: Seq<Edge>, n: int) -> bool {
    forall|t: int| 0 <= t < es.len() ==> 0 <= (#[trigger] es[t]).0 < n && 0 <= es[t].1 < n
}

/// What holds throughout the search, while the dependencies on `idx` are looked
/// through up to `j`; between two steps `idx` is no component.
pub open spec fn kahn_inv(es: Seq<Edge>, n: int, s: Kahn, idx: int, j: int) -> bool {
    &&& s.open.len() == n
    &&& forall|k: int| 0 <= k < s.ready.len() ==> 0 <= #[trigger] s.ready[k] < n
    &&& forall|k: int| 0 <= k < s.order.len() ==> 0 <= #[trigger] s.order[k] < n
    &&& (s.ready + s.order).no_duplicates()
    &&& forall|i: int|
        0 <= i < n ==> #[trigger] s.open[i] == open_count(
            es,
            s.order,
            idx,
            j,
            i,
            es.len() as int,
        )
    &&& forall|i: int|
        0 <= i < n ==> (#[trigger] s.open[i] == 0 <==> s.ready.contains(i) || s.order.contains(i))
    &&& forall|k: int, t: int|
        0 <= k < s.order.len() && 0 <= t < es.len() && (#[trigger] es[t]).1 == #[trigger] s.order[k]
            ==> s.order.take(k).contains(es[t].0)
}

proof fn lemma_open_count_bounds(es: Seq<Edge>, order: Seq<int>, idx: int, j: int, i: int, m: int)
    requires
        0 <= m <= es.len(),
    ensures
        0 <= open_count(es, order, idx, j, i, m) <= m,
        open_count(es, order, idx, j, i, m) == 0 ==> forall|t: int|
            0 <= t < m && (#[trigger] es[t]).1 == i ==> !is_open(es, order, idx, j, t),
        open_count(es, order, idx, j, i, m) > 0 ==> exists|t: int|
            0 <= t < m && (#[trigger] es[t]).1 == i && is_open(es, order, idx, j, t),
    decreases m,
{
    if m > 0 {
        lemma_open_count_bounds(es, order, idx, j, i, m - 1);
        if es[m - 1].1 == i && is_open(es, order, idx, j, m - 1) {
        } else if open_count(es, order, idx, j, i, m) > 0 {
            let t = choose|t: int|
                0 <= t < m - 1 && (#[trigger] es[t]).1 == i && is_open(es, order, idx, j, t);
            assert(0 <= t < m && es[t].1 == i);
        }
    }
}

proof fn lemma_open_count_step(es: Seq<Edge>, order: Seq<int>, idx: int, j: int, i: int, m: int)
    requires
        0 <= m <= es.len(),
        0 <= j < es.len(),
    ensures
        open_count(es, order, idx, j + 1, i, m) == open_count(es, order, idx, j, i, m) - if j < m
            && es[j].0 == idx && es[j].1 == i {
            1int
        } else {
            0int
        },
    decreases m,
{
    if m > 0 {
        lemma_open_count_step(es, order, idx, j, i, m - 1);
    }
}

/// Before any dependency on `idx` is looked at, and after all are, it makes no
/// difference that `idx` is singled out.
proof fn lemma_open_count_ends(es: Seq<Edge>, order: Seq<int>, idx: int, i: int, m: int)
    requires
        0 <= m <= es.len(),
        !order.contains(idx),
        0 <= idx,
        forall|t: int| 0 <= t < es.len() ==> 0 <= (#[trigger] es[t]).0,
    ensures
        open_count(es, order, -1, 0, i, m) == open_count(es, order.push(idx), idx, 0, i, m),
        open_count(es, order.push(idx), -1, 0, i, m) == open_count(
            es,
            order.push(idx),
            idx,
            es.len() as int,
            i,
            m,
        ),
    decreases m,
{
    if m > 0 {
        lemma_open_count_ends(es, order, idx, i, m - 1);
        let d = es[m - 1].0;
        lemma_push_has(order, idx, d);
    }
}

proof fn lemma_push_has(s: Seq<int>, a: int, x: int)
    ensures
        s.push(a).contains(x) == (s.contains(x) || x == a),
{
    if s.contains(x) {
        let k = choose|k: int| 0 <= k < s.len() && s[k] == x;
        assert(s.push(a)[k] == x);
    }
    if x == a {
        assert(s.push(a)[s.len() as int] == x);
    }
    if s.push(a).contains(x) {
        let k = choose|k: int| 0 <= k < s.push(a).len() && s.push(a)[k] == x;
        if k < s.len() {
            assert(s[k] == x);
        }
    }
}

proof fn lemma_start_counts(es: Seq<Edge>, i: int, m: int)
    requires
        0 <= m <= es.len(),
        forall|t: int| 0 <= t < es.len() ==> 0 <= (#[trigger] es[t]).0,
    ensures
        open_count(es, Seq::empty(), -1, 0, i, m) == in_degree(es, i, m),
    decreases m,
{
    if m > 0 {
        lemma_start_counts(es, i, m - 1);
    }
}

proof fn lemma_roots(es: Seq<Edge>, n: int)
    requires
        0 <= n,
    ensures
        forall|k: int| 0 <= k < roots(es, n).len() ==> 0 <= #[trigger] roots(es, n)[k] < n,
        roots(es, n).no_duplicates(),
        forall|i: int|
            0 <= i < n ==> (#[trigger] roots(es, n).contains(i) <==> in_degree(
                es,
                i,
                es.len() as int,
            ) == 0),
    decreases n,
{
    if n > 0 {
        lemma_roots(es, n - 1);
        let r = roots(es, n - 1);
        assert forall|i: int| 0 <= i < n implies (#[trigger] roots(es, n).contains(i) <==> in_degree(
            es,
            i,
            es.len() as int,
        ) == 0) by {
            lemma_push_has(r, n - 1, i);
            if i == n - 1 && r.contains(i) {
                let k = choose|k: int| 0 <= k < r.len() && r[k] == i;
                assert(r[k] < n - 1);
            }
            if i < n - 1 {
                assert(r.contains(i) <==> in_degree(es, i, es.len() as int) == 0);
            }
        }
    }
}

proof fn lemma_start_inv(es: Seq<Edge>, n: int)
    requires
        0 <= n,
        edges_ok(es, n),
    ensures
        kahn_inv(es, n, kahn_start(es, n), -1, 0),
{
    let s = kahn_start(es, n);
    lemma_roots(es, n);
    assert(s.ready + s.order =~= s.ready);
    assert forall|i: int| 0 <= i < n implies #[trigger] s.open[i] == open_count(
        es,
        s.order,
        -1,
        0,
        i,
        es.len() as int,
    ) by {
        lemma_start_counts(es, i, es.len() as int);
    }
    assert forall|i: int| 0 <= i < n implies (#[trigger] s.open[i] == 0 <==> s.ready.contains(i)
        || s.order.contains(i)) by {
        assert(roots(es, n).contains(i) <==> in_degree(es, i, es.len() as int) == 0);
    }
}

/// One more dependency looked through.
proof fn lemma_relax_inv(es: Seq<Edge>, n: int, idx: int, s: Kahn, j: int)
    requires
        0 <= j < es.len(),
        edges_ok(es, n),
        kahn_inv(es, n, s, idx, j),
        s.order.contains(idx),
    ensures
        ({
            let (d, i) = es[j];
            let left = s.open[i] - 1;
            let t = if d == idx {
                Kahn {
                    open: s.open.update(i, left),
                    ready: if left == 0 {
                        s.ready.push(i)
                    } else {
                        s.ready
                    },
                    ..s
                }
            } else {
                s
            };
            &&& kahn_inv(es, n, t, idx, j + 1)
            &&& d == idx ==> s.open[i] > 0
        }),
{
    let m = es.len() as int;
    let (d, i) = es[j];
    assert forall|k: int| 0 <= k < n implies #[trigger] open_count(es, s.order, idx, j + 1, k, m)
        == open_count(es, s.order, idx, j, k, m) - if d == idx && k == i {
        1int
    } else {
        0int
    } by {
        lemma_open_count_step(es, s.order, idx, j, k, m);
    }
    if d == idx {
        lemma_open_count_bounds(es, s.order, idx, j, i, m);
        if s.open[i] <= 0 {
            assert(!is_open(es, s.order, idx, j, j));
            assert(false);
        }
        let left = s.open[i] - 1;
        let ready = if left == 0 {
            s.ready.push(i)
        } else {
            s.ready
        };
        let t = Kahn { open: s.open.update(i, left), ready, ..s };
        assert(!s.ready.contains(i) && !s.order.contains(i));
        if left == 0 {
            let all = s.ready + s.order;
            let new = t.ready + t.order;
            assert forall|a: int, b: int| 0 <= a < new.len() && 0 <= b < new.len() && a != b implies new[a]
                != new[b] by {
                let at = s.ready.len() as int;
                let oa = if a < at {
                    a
                } else {
                    a - 1
                };
                let ob = if b < at {
                    b
                } else {
                    b - 1
                };
                if a == at {
                    if b < at {
                        assert(new[b] == s.ready[b]);
                        assert(s.ready.contains(new[b]));
                    } else {
                        assert(new[b] == s.order[b - at - 1]);
                        assert(s.order.contains(new[b]));
                    }
                } else if b == at {
                    if a < at {
                        assert(new[a] == s.ready[a]);
                        assert(s.ready.contains(new[a]));
                    } else {
                        assert(new[a] == s.order[a - at - 1]);
                        assert(s.order.contains(new[a]));
                    }
                } else {
                    assert(new[a] == all[oa]);
                    assert(new[b] == all[ob]);
                }
            }
        }
        assert forall|k: int| 0 <= k < n implies (#[trigger] t.open[k] == 0 <==> t.ready.contains(k)
            || t.order.contains(k)) by {
            assert(s.open[k] == 0 <==> s.ready.contains(k) || s.order.contains(k));
            lemma_push_has(s.ready, i, k);
        }
        assert forall|k: int| 0 <= k < n implies #[trigger] t.open[k] == open_count(
            es,
            t.order,
            idx,
            j + 1,
            k,
            m,
        ) by {
            assert(s.open[k] == open_count(es, s.order, idx, j, k, m));
            assert(open_count(es, s.order, idx, j + 1, k, m) == open_count(
                es,
                s.order,
                idx,
                j,
                k,
                m,
            ) - if d == idx && k == i {
                1int
            } else {
                0int
            });
        }
        assert(kahn_inv(es, n, t, idx, j + 1));
    } else {
        assert forall|k: int| 0 <= k < n implies #[trigger] s.open[k] == open_count(
            es,
            s.order,
            idx,
            j + 1,
            k,
            m,
        ) by {
            assert(open_count(es, s.order, idx, j + 1, k, m) == open_count(
                es,
                s.order,
                idx,
                j,
                k,
                m,
            ));
        }
    }
}

proof fn lemma_relaxed_inv(es: Seq<Edge>, n: int, idx: int, s: Kahn, j: int)
    requires
        0 <= j <= es.len(),
        edges_ok(es, n),
        kahn_inv(es, n, s, idx, 0),
        s.order.contains(idx),
    ensures
        kahn_inv(es, n, relaxed(es, idx, s, j), idx, j),
        relaxed(es, idx, s, j).order == s.order,
    decreases j,
{
    if j > 0 {
        lemma_relaxed_inv(es, n, idx, s, j - 1);
        lemma_relax_inv(es, n, idx, relaxed(es, idx, s, j - 1), j - 1);
    }
}

/// A component is taken to be started.
proof fn lemma_pop_inv(es: Seq<Edge>, n: int, s: Kahn)
    requires
        edges_ok(es, n),
        kahn_inv(es, n, s, -1, 0),
        s.ready.len() > 0,
    ensures
        ({
            let idx = s.ready.last();
            let t = Kahn { ready: s.ready.drop_last(), order: s.order.push(idx), ..s };
            &&& 0 <= idx < n
            &&& t.order.contains(idx)
            &&& !s.order.contains(idx)
            &&& kahn_inv(es, n, t, idx, 0)
        }),
{
    let m = es.len() as int;
    let idx = s.ready.last();
    let rest = s.ready.drop_last();
    let t = Kahn { ready: rest, order: s.order.push(idx), ..s };
    let all = s.ready + s.order;
    let at = rest.len() as int;
    assert(all[at] == idx);
    assert(0 <= s.ready[at] < n);
    assert(t.order[s.order.len() as int] == idx);
    if s.order.contains(idx) {
        let k = choose|k: int| 0 <= k < s.order.len() && s.order[k] == idx;
        assert(all[s.ready.len() + k] == idx);
    }
    let new = t.ready + t.order;
    assert forall|a: int, b: int| 0 <= a < new.len() && 0 <= b < new.len() && a != b implies new[a]
        != new[b] by {
        let oa = if a < at {
            a
        } else if a == new.len() - 1 {
            at
        } else {
            a + 1
        };
        let ob = if b < at {
            b
        } else if b == new.len() - 1 {
            at
        } else {
            b + 1
        };
        assert(new[a] == all[oa]);
        assert(new[b] == all[ob]);
    }
    assert forall|i: int| 0 <= i < n implies (#[trigger] t.open[i] == 0 <==> t.ready.contains(i)
        || t.order.contains(i)) by {
        assert(s.open[i] == 0 <==> s.ready.contains(i) || s.order.contains(i));
        lemma_push_has(s.order, idx, i);
        lemma_push_has(rest, idx, i);
        assert(s.ready =~= rest.push(idx));
    }
    assert forall|i: int| 0 <= i < n implies #[trigger] t.open[i] == open_count(
        es,
        t.order,
        idx,
        0,
        i,
        m,
    ) by {
        assert(s.open[i] == open_count(es, s.order, -1, 0, i, m));
        lemma_open_count_ends(es, s.order, idx, i, m);
    }
    assert forall|k: int, e: int|
        0 <= k < t.order.len() && 0 <= e < es.len() && (#[trigger] es[e]).1
            == #[trigger] t.order[k] implies t.order.take(k).contains(es[e].0) by {
        if k < s.order.len() {
            assert(t.order[k] == s.order[k]);
            assert(s.order.take(k).contains(es[e].0));
            assert(t.order.take(k) =~= s.order.take(k));
        } else {
            assert(s.ready.contains(idx)) by {
                assert(s.ready[at] == idx);
            }
            assert(s.open[idx] == 0);
            lemma_open_count_bounds(es, s.order, -1, 0, idx, m);
            assert(!is_open(es, s.order, -1, 0, e));
            assert(t.order.take(k) =~= s.order);
        }
    }
    assert forall|k: int| 0 <= k < t.ready.len() implies 0 <= #[trigger] t.ready[k] < n by {
        assert(t.ready[k] == s.ready[k]);
    }
    assert forall|k: int| 0 <= k < t.order.len() implies 0 <= #[trigger] t.order[k] < n by {
        if k < s.order.len() {
            assert(t.order[k] == s.order[k]);
        }
    }
}

proof fn lemma_step_inv(es: Seq<Edge>, n: int, s: Kahn)
    requires
        edges_ok(es, n),
        kahn_inv(es, n, s, -1, 0),
    ensures
        kahn_inv(es, n, kahn_step(es, s), -1, 0),
        s.ready.len() > 0 ==> kahn_step(es, s).order == s.order.push(s.ready.last()),
{
    if s.ready.len() > 0 {
        let m = es.len() as int;
        let idx = s.ready.last();
        let t = Kahn { ready: s.ready.drop_last(), order: s.order.push(idx), ..s };
        lemma_pop_inv(es, n, s);
        lemma_relaxed_inv(es, n, idx, t, m);
        let u = relaxed(es, idx, t, m);
        assert forall|i: int| 0 <= i < n implies #[trigger] u.open[i] == open_count(
            es,
            u.order,
            -1,
            0,
            i,
            m,
        ) by {
            lemma_open_count_ends(es, s.order, idx, i, m);
        }
    }
}

proof fn lemma_kahn_inv(es: Seq<Edge>, n: int, k: int)
    requires
        0 <= n,
        0 <= k,
        edges_ok(es, n),
    ensures
        kahn_inv(es, n, kahn(es, n, k), -1, 0),
        kahn(es, n, k).order.len() <= k,
        kahn(es, n, k).ready.len() > 0 ==> kahn(es, n, k).order.len() == k,
    decreases k,
{
    if k <= 0 {
        lemma_start_inv(es, n);
    } else {
        lemma_kahn_inv(es, n, k - 1);
        lemma_step_inv(es, n, kahn(es, n, k - 1));
    }
}

/// Distinct numbers below `n` are at most `n`, and if they are `n`, all are there.
proof fn lemma_pigeonhole(s: Seq<int>, n: int)
    requires
        0 <= n,
        s.no_duplicates(),
        forall|k: int| 0 <= k < s.len() ==> 0 <= #[trigger] s[k] < n,
    ensures
        s.len() <= n,
        s.len() == n ==> forall|i: int| 0 <= i < n ==> s.contains(i),
    decreases n,
{
    if n == 0 {
        if s.len() > 0 {
            assert(0 <= s[0] < n);
        }
    } else if s.contains(n - 1) {
        let k = choose|k: int| 0 <= k < s.len() && s[k] == n - 1;
        let t = s.remove(k);
        assert forall|a: int| 0 <= a < t.len() implies 0 <= #[trigger] t[a] < n - 1 by {
            let b = if a < k {
                a
            } else {
                a + 1
            };
            assert(t[a] == s[b]);
            assert(0 <= s[b] < n);
        }
        assert forall|a: int, b: int| 0 <= a < t.len() && 0 <= b < t.len() && a != b implies t[a]
            != t[b] by {
            let sa = if a < k {
                a
            } else {
                a + 1
            };
            let sb = if b < k {
                b
            } else {
                b + 1
            };
            assert(t[a] == s[sa] && t[b] == s[sb]);
        }
        lemma_pigeonhole(t, n - 1);
        if s.len() == n {
            assert forall|i: int| 0 <= i < n implies s.contains(i) by {
                if i < n - 1 {
                    assert(t.contains(i));
                    let a = choose|a: int| 0 <= a < t.len() && t[a] == i;
                    let b = if a < k {
                        a
                    } else {
                        a + 1
                    };
                    assert(s[b] == i);
                }
            }
        }
    } else {
        assert forall|a: int| 0 <= a < s.len() implies 0 <= #[trigger] s[a] < n - 1 by {
            assert(s[a] != n - 1) by {
                if s[a] == n - 1 {
                    assert(s.contains(n - 1));
                }
            }
        }
        lemma_pigeonhole(s, n - 1);
    }
}

/// After as many steps as there are components nothing is left to start.
proof fn lemma_search_ends(es: Seq<Edge>, n: int)
    requires
        0 <= n,
        edges_ok(es, n),
    ensures
        kahn(es, n, n).ready.len() == 0,
        kahn_inv(es, n, kahn(es, n, n), -1, 0),
{
    lemma_kahn_inv(es, n, n);
    let s = kahn(es, n, n);
    let all = s.ready + s.order;
    assert forall|k: int| 0 <= k < all.len() implies 0 <= #[trigger] all[k] < n by {
        if k < s.ready.len() {
            assert(all[k] == s.ready[k]);
        } else {
            assert(all[k] == s.order[k - s.ready.len()]);
        }
    }
    lemma_pigeonhole(all, n);
}

/// The start order holds no component twice, and holds every dependency of a
/// component before the component.
pub proof fn law_dependencies_start_first(es: Seq<Edge>, n: int)
    requires
        0 <= n,
        edges_ok(es, n),
    ensures
        start_order(es, n).no_duplicates(),
        forall|k: int|
            0 <= k < start_order(es, n).len() ==> 0 <= #[trigger] start_order(es, n)[k] < n,
        forall|k: int, t: int|
            0 <= k < start_order(es, n).len() && 0 <= t < es.len() && (#[trigger] es[t]).1
                == #[trigger] start_order(es, n)[k] ==> start_order(es, n).take(k).contains(
                es[t].0,
            ),
        start_order(es, n).len() <= n,
        start_order(es, n).len() == n ==> forall|i: int|
            0 <= i < n ==> start_order(es, n).contains(i),
{
    lemma_search_ends(es, n);
    let s = kahn(es, n, n);
    let o = s.order;
    assert(o.no_duplicates()) by {
        let all = s.ready + s.order;
        assert forall|a: int, b: int| 0 <= a < o.len() && 0 <= b < o.len() && a != b implies o[a]
            != o[b] by {
            assert(all[s.ready.len() + a] == o[a]);
            assert(all[s.ready.len() + b] == o[b]);
        }
    }
    lemma_pigeonhole(o, n);
}

/// A circle: every one of these components depends on one of them.
pub open spec fn circle(es: Seq<Edge>, n: int, c: Set<int>) -> bool {
    &&& exists|i: int| c.contains(i)
    &&& forall|i: int|
        #[trigger] c.contains(i) ==> 0 <= i < n && exists|t: int|
            0 <= t < es.len() && (#[trigger] es[t]).1 == i && c.contains(es[t].0)
}

/// All components can start exactly when no components depend on one another in a
/// circle.
pub proof fn law_circles_cannot_start(es: Seq<Edge>, n: int)
    requires
        0 <= n,
        edges_ok(es, n),
    ensures
        start_order(es, n).len() == n <==> !exists|c: Set<int>| circle(es, n, c),
{
    law_dependencies_start_first(es, n);
    let o = start_order(es, n);
    if o.len() == n {
        if exists|c: Set<int>| circle(es, n, c) {
            let c = choose|c: Set<int>| circle(es, n, c);
            let i = choose|i: int| c.contains(i);
            assert(0 <= i < n);
            assert(o.contains(i));
            let k = choose|k: int| 0 <= k < o.len() && o[k] == i;
            lemma_no_circle_member(es, n, c, k);
        }
    } else {
        lemma_search_ends(es, n);
        let s = kahn(es, n, n);
        let c = Set::new(|i: int| 0 <= i < n && !o.contains(i));
        assert forall|i: int| #[trigger] c.contains(i) implies 0 <= i < n && exists|t: int|
            0 <= t < es.len() && (#[trigger] es[t]).1 == i && c.contains(es[t].0) by {
            assert(s.open[i] != 0) by {
                assert(s.open[i] == 0 <==> s.ready.contains(i) || s.order.contains(i));
            }
            lemma_open_count_bounds(es, o, -1, 0, i, es.len() as int);
            let t = choose|t: int|
                0 <= t < es.len() && (#[trigger] es[t]).1 == i && is_open(es, o, -1, 0, t);
            assert(c.contains(es[t].0));
        }
        assert(exists|i: int| c.contains(i)) by {
            if forall|i: int| !c.contains(i) {
                assert forall|i: int| 0 <= i < n implies o.contains(i) by {
                    assert(!c.contains(i));
                }
                lemma_all_below(o, n);
            }
        }
        assert(circle(es, n, c));
    }
}

/// A list that holds every number below `n` is at least `n` long.
proof fn lemma_all_below(s: Seq<int>, n: int)
    requires
        0 <= n,
        forall|i: int| 0 <= i < n ==> s.contains(i),
    ensures
        s.len() >= n,
    decreases n,
{
    if n > 0 {
        let k = choose|k: int| 0 <= k < s.len() && s[k] == n - 1;
        assert(s.contains(n - 1));
        let t = s.remove(k);
        assert forall|i: int| 0 <= i < n - 1 implies t.contains(i) by {
            assert(s.contains(i));
            let a = choose|a: int| 0 <= a < s.len() && s[a] == i;
            let b = if a < k {
                a
            } else {
                a - 1
            };
            assert(t[b] == i);
        }
        lemma_all_below(t, n - 1);
    }
}

proof fn lemma_no_circle_member(es: Seq<Edge>, n: int, c: Set<int>, k: int)
    requires
        0 <= n,
        edges_ok(es, n),
        circle(es, n, c),
        0 <= k < start_order(es, n).len(),
    ensures
        !c.contains(start_order(es, n)[k]),
    decreases k,
{
    law_dependencies_start_first(es, n);
    let o = start_order(es, n);
    let i = o[k];
    if c.contains(i) {
        let t = choose|t: int|
            0 <= t < es.len() && (#[trigger] es[t]).1 == i && c.contains(es[t].0);
        assert(o.take(k).contains(es[t].0));
        let p = choose|p: int| 0 <= p < k && o.take(k)[p] == es[t].0;
        assert(o[p] == es[t].0);
        lemma_no_circle_member(es, n, c, p);
    }
}

/// The numbers of a list.
pub open spec fn ints(v: Seq<usize>) -> Seq<int> {
    Seq::new(v.len(), |i: int| v[i] as int)
}

/// The pairs of a list.
pub open spec fn edge_views(v: Seq<(usize, usize)>) -> Seq<Edge> {
    Seq::new(v.len(), |i: int| (v[i].0 as int, v[i].1 as int))
}

proof fn lemma_find_name<P>(cs: Seq<SupervisedComponent<P>>, name: Seq<char>, n: int)
    ensures
        find_name(cs, name, n) matches Some(i) ==> 0 <= i < n,
    decreases n,
{
    if n > 0 {
        lemma_find_name(cs, name, n - 1);
    }
}

pub proof fn lemma_deps_ok<P>(cs: Seq<SupervisedComponent<P>>, i: int, k: int)
    requires
        0 <= i < cs.len(),
        0 <= k <= cs[i].deps@.len(),
    ensures
        deps_of(cs, i, k) matches Ok(es) ==> edges_ok(es, cs.len() as int),
        deps_of(cs, i, k) matches Err(e) ==> e.0 == i && 0 <= e.1 < cs[i].deps@.len(),
    decreases k,
{
    if k > 0 {
        lemma_deps_ok(cs, i, k - 1);
        lemma_find_name(cs, cs[i].deps@[k - 1]@, cs.len() as int);
    }
}

pub proof fn lemma_edges_ok<P>(cs: Seq<SupervisedComponent<P>>, n: int)
    requires
        0 <= n <= cs.len(),
    ensures
        edges_of(cs, n) matches Ok(es) ==> edges_ok(es, cs.len() as int),
        edges_of(cs, n) matches Err(e) ==> 0 <= e.0 < cs.len() && 0 <= e.1 < cs[e.0].deps@.len(),
    decreases n,
{
    if n > 0 {
        lemma_edges_ok(cs, n - 1);
        lemma_deps_ok(cs, n - 1, cs[n - 1].deps@.len() as int);
        if let Ok(es) = edges_of(cs, n) {
            let a = edges_of(cs, n - 1)->Ok_0;
            let b = deps_of(cs, n - 1, cs[n - 1].deps@.len() as int)->Ok_0;
            assert forall|t: int| 0 <= t < es.len() implies 0 <= (#[trigger] es[t]).0 < cs.len()
                && 0 <= es[t].1 < cs.len() by {
                if t < a.len() {
                    assert(es[t] == a[t]);
                } else {
                    assert(es[t] == b[t - a.len()]);
                }
            }
        }
    }
}

proof fn lemma_edges_prefix<P>(cs: Seq<SupervisedComponent<P>>, i: int, n: int)
    requires
        0 <= i <= n,
        edges_of(cs, i) is Err,
    ensures
        edges_of(cs, n) == edges_of(cs, i),
    decreases n,
{
    if i < n {
        lemma_edges_prefix(cs, i, n - 1);
    }
}

proof fn lemma_deps_prefix<P>(cs: Seq<SupervisedComponent<P>>, i: int, k: int, n: int)
    requires
        0 <= k <= n,
        deps_of(cs, i, k) is Err,
    ensures
        deps_of(cs, i, n) == deps_of(cs, i, k),
    decreases n,
{
    if k < n {
        lemma_deps_prefix(cs, i, k, n - 1);
    }
}

/// Once nothing can start, nothing changes.
proof fn lemma_search_stays(es: Seq<Edge>, n: int, k: int, m: int)
    requires
        0 <= k <= m,
        kahn(es, n, k).ready.len() == 0,
    ensures
        kahn(es, n, m) == kahn(es, n, k),
    decreases m,
{
    if k < m {
        lemma_search_stays(es, n, k, m - 1);
    }
}

/// The outcome of sorting: the start order, or the text of what is wrong. A
/// dependency that names no component is reported first, then a circle.
pub open spec fn sorted<P>(cs: Seq<SupervisedComponent<P>>) -> Result<Seq<int>, Seq<char>> {
    match edges_of(cs, cs.len() as int) {
        Err((i, k)) => Err(
            "component '"@ + cs[i].name@ + "' depends on unknown component '"@ + cs[i].deps@[k]@
                + "'"@,
        ),
        Ok(es) => {
            let o = start_order(es, cs.len() as int);
            if o.len() == cs.len() {
                Ok(o)
            } else {
                Err("circular dependency detected in component graph"@)
            }
        },
    }
}

impl<P> Supervisor<P> {
    /// A supervisor without components.
    pub fn new() -> (r: Self)
        ensures
            r.components@.len() == 0,
    {
        Supervisor { components: Vec::new() }
    }

    /// Adds a component with its dependencies and its error policy.
    pub fn add(&mut self, name: String, deps: Vec<String>, on_error: P)
        ensures
            final(self).components@ == old(self).components@.push(
                (SupervisedComponent { name, deps, on_error }),
            ),
    {
        self.components.push(SupervisedComponent { name, deps, on_error });
    }

    fn find(&self, name: &String) -> (r: Option<usize>)
        ensures
            match r {
                Some(i) => resolve(self.components@, name@) == Some(i as int),
                None => resolve(self.components@, name@) is None,
            },
    {
        let mut i: usize = self.components.len();
        while i > 0
            invariant
                i <= self.components@.len(),
                resolve(self.components@, name@) == find_name(self.components@, name@, i as int),
            decreases i,
        {
            if self.components[i - 1].name == *name {
                return Some(i - 1);
            }
            i -= 1;
        }
        None
    }

    fn edges(&self) -> (r: Result<Vec<(usize, usize)>, String>)
        ensures
            match r {
                Ok(v) => edges_of(self.components@, self.components@.len() as int) == Ok::<
                    Seq<Edge>,
                    (int, int),
                >(edge_views(v@)),
                Err(m) => edges_of(self.components@, self.components@.len() as int) matches Err(e)
                    && m@ == "component '"@ + self.components@[e.0].name@
                    + "' depends on unknown component '"@ + self.components@[e.0].deps@[e.1]@ + "'"@,
            },
    {
        let ghost cs = self.components@;
        let mut out: Vec<(usize, usize)> = Vec::new();
        let mut i: usize = 0;
        assert(edge_views(out@) =~= Seq::<Edge>::empty());
        while i < self.components.len()
            invariant
                i <= self.components@.len(),
                cs == self.components@,
                edges_of(cs, i as int) == Ok::<Seq<Edge>, (int, int)>(edge_views(out@)),
            decreases self.components@.len() - i,
        {
            let c = &self.components[i];
            let ghost before = edge_views(out@);
            let mut k: usize = 0;
            assert(before + Seq::<Edge>::empty() =~= before);
            while k < c.deps.len()
                invariant
                    i < self.components@.len(),
                    cs == self.components@,
                    *c == cs[i as int],
                    k <= c.deps@.len(),
                    edges_of(cs, i as int) == Ok::<Seq<Edge>, (int, int)>(before),
                    deps_of(cs, i as int, k as int) is Ok,
                    edge_views(out@) == before + deps_of(cs, i as int, k as int)->Ok_0,
                decreases c.deps@.len() - k,
            {
                match self.find(&c.deps[k]) {
                    Some(d) => {
                        let ghost now = edge_views(out@);
                        out.push((d, i));
                        proof {
                            assert(edge_views(out@) =~= now.push((d as int, i as int)));
                            assert(edge_views(out@) =~= before + deps_of(
                                cs,
                                i as int,
                                k + 1,
                            )->Ok_0);
                        }
                    },
                    None => {
                        proof {
                            lemma_deps_prefix(cs, i as int, k + 1, c.deps@.len() as int);
                            assert(edges_of(cs, i + 1) == Err::<Seq<Edge>, (int, int)>(
                                (i as int, k as int),
                            ));
                            lemma_edges_prefix(cs, i + 1, cs.len() as int);
                        }
                        let head = concat3(
                            "component '",
                            c.name.as_str(),
                            "' depends on unknown component '",
                        );
                        return Err(concat3(head.as_str(), c.deps[k].as_str(), "'"));
                    },
                }
                k += 1;
            }
            i += 1;
        }
        Ok(out)
    }

    /// The order in which the components start.
    pub fn topo_sort(&self) -> (r: Result<Vec<usize>, String>)
        ensures
            match r {
                Ok(v) => sorted(self.components@) == Ok::<Seq<int>, Seq<char>>(ints(v@)),
                Err(m) => sorted(self.components@) == Err::<Seq<int>, Seq<char>>(m@),
            },
    {
        let n: usize = self.components.len();
        let edges = match self.edges() {
            Err(e) => {
                return Err(e);
            },
            Ok(v) => v,
        };
        let ghost es = edge_views(edges@);
        proof {
            lemma_edges_ok(self.components@, n as int);
            assert(edges_ok(es, n as int));
        }
        let (open, ready) = kahn_begin(&edges, n);
        let mut open = open;
        let mut ready = ready;
        let mut order: Vec<usize> = Vec::new();
        let ghost mut k: int = 0;
        assert(ints(order@) =~= Seq::<int>::empty());
        while ready.len() > 0
            invariant
                edges_ok(es, n as int),
                es == edge_views(edges@),
                0 <= k <= n,
                k == order@.len(),
                (Kahn { open: ints(open@), ready: ints(ready@), order: ints(order@) }) == kahn(
                    es,
                    n as int,
                    k,
                ),
            decreases n - k,
        {
            proof {
                lemma_kahn_inv(es, n as int, k);
                let s = kahn(es, n as int, k);
                let all = s.ready + s.order;
                assert forall|x: int| 0 <= x < all.len() implies 0 <= #[trigger] all[x] < n by {
                    if x < s.ready.len() {
                        assert(all[x] == s.ready[x]);
                    } else {
                        assert(all[x] == s.order[x - s.ready.len()]);
                    }
                }
                lemma_pigeonhole(all, n as int);
                lemma_pop_inv(es, n as int, s);
                assert(s.ready.len() == ready@.len());
                assert(k < n);
            }
            kahn_advance(&edges, n, &mut open, &mut ready, &mut order);
            proof {
                lemma_step_inv(es, n as int, kahn(es, n as int, k));
                k = k + 1;
                assert(kahn(es, n as int, k) == kahn_step(es, kahn(es, n as int, k - 1)));
            }
        }
        proof {
            assert(kahn(es, n as int, k).ready.len() == 0);
            lemma_search_stays(es, n as int, k, n as int);
        }
        assert(ints(order@).len() == order@.len());
        if order.len() != n {
            return Err("circular dependency detected in component graph".to_owned());
        }
        Ok(order)
    }
}

fn kahn_begin(edges: &Vec<(usize, usize)>, n: usize) -> (r: (Vec<usize>, Vec<usize>))
    requires
        edges_ok(edge_views(edges@), n as int),
    ensures
        ints(r.0@) == kahn_start(edge_views(edges@), n as int).open,
        ints(r.1@) == kahn_start(edge_views(edges@), n as int).ready,
{
    let ghost es = edge_views(edges@);
    let mut open: Vec<usize> = Vec::new();
    let mut ready: Vec<usize> = Vec::new();
    let mut i: usize = 0;
    assert(ints(ready@) =~= Seq::<int>::empty());
    while i < n
        invariant
            i <= n,
            es == edge_views(edges@),
            open@.len() == i,
            forall|j: int| 0 <= j < i ==> open@[j] == in_degree(es, j, es.len() as int),
            ints(ready@) == roots(es, i as int),
        decreases n - i,
    {
        let mut count: usize = 0;
        let mut m: usize = 0;
        while m < edges.len()
            invariant
                m <= edges@.len(),
                es == edge_views(edges@),
                count <= m,
                count == in_degree(es, i as int, m as int),
            decreases edges@.len() - m,
        {
            if edges[m].1 == i {
                count += 1;
            }
            m += 1;
        }
        open.push(count);
        let ghost before = ints(ready@);
        if count == 0 {
            ready.push(i);
            assert(ints(ready@) =~= before.push(i as int));
        }
        i += 1;
    }
    assert(ints(open@) =~= kahn_start(es, n as int).open);
    (open, ready)
}

fn kahn_advance(
    edges: &Vec<(usize, usize)>,
    n: usize,
    open: &mut Vec<usize>,
    ready: &mut Vec<usize>,
    order: &mut Vec<usize>,
)
    requires
        edges_ok(edge_views(edges@), n as int),
        old(ready)@.len() > 0,
        kahn_inv(
            edge_views(edges@),
            n as int,
            (Kahn {
                open: ints(old(open)@),
                ready: ints(old(ready)@),
                order: ints(old(order)@),
            }),
            -1,
            0,
        ),
    ensures
        (Kahn { open: ints(final(open)@), ready: ints(final(ready)@), order: ints(final(order)@) })
            == kahn_step(
            edge_views(edges@),
            Kahn {
                open: ints(old(open)@),
                ready: ints(old(ready)@),
                order: ints(old(order)@),
            },
        ),
        final(order)@.len() == old(order)@.len() + 1,
{
    let ghost es = edge_views(edges@);
    let ghost s = Kahn { open: ints(open@), ready: ints(ready@), order: ints(order@) };
    proof {
        lemma_pop_inv(es, n as int, s);
    }
    let last: usize = ready.len() - 1;
    let idx: usize = ready[last];
    ready.truncate(last);
    order.push(idx);
    let ghost t = Kahn {
        ready: s.ready.drop_last(),
        order: s.order.push(s.ready.last()),
        ..s
    };
    proof {
        assert(s.ready.last() == idx);
        assert(ints(ready@) =~= t.ready);
        assert(ints(order@) =~= t.order);
    }
    let mut j: usize = 0;
    while j < edges.len()
        invariant
            j <= edges@.len(),
            es == edge_views(edges@),
            edges_ok(es, n as int),
            kahn_inv(es, n as int, t, idx as int, 0),
            t.order.contains(idx as int),
            (Kahn { open: ints(open@), ready: ints(ready@), order: ints(order@) }) == relaxed(
                es,
                idx as int,
                t,
                j as int,
            ),
            order@.len() == old(order)@.len() + 1,
        decreases edges@.len() - j,
    {
        let ghost u = relaxed(es, idx as int, t, j as int);
        proof {
            lemma_relaxed_inv(es, n as int, idx as int, t, j as int);
            lemma_relax_inv(es, n as int, idx as int, u, j as int);
        }
        if edges[j].0 == idx {
            let i: usize = edges[j].1;
            assert(ints(open@)[i as int] == open@[i as int]);
            assert(ints(open@).len() == open@.len());
            let left: usize = open[i] - 1;
            let ghost before = ints(open@);
            open[i] = left;
            assert(ints(open@) =~= before.update(i as int, left as int));
            let ghost rb = ints(ready@);
            if left == 0 {
                ready.push(i);
                assert(ints(ready@) =~= rb.push(i as int));
            }
        }
        j += 1;
    }
}

/// How a component ended.
pub enum ComponentEnd {
    /// On its own, without an error.
    Clean,
    /// With an error, given by its text.
    Failed(String),
    /// By a panic, given by its text.
    Panicked(String),
}

/// How a component ended, and what its policy says of the error if there was one.
pub enum ComponentOutcome {
    Clean,
    Failed(String, ErrorHandlingBehavior),
    Panicked(String),
}

/// Does the policy say this of the error?
pub open spec fn says<P: Fn(String) -> ErrorHandlingBehavior>(
    policy: P,
    error: Seq<char>,
    b: ErrorHandlingBehavior,
) -> bool {
    exists|e: String| e@ == error && #[trigger] call_ensures(policy, (e,), b)
}

/// Is this the outcome of a component's end? The policy of the component is asked about
/// the very error that it failed with.
pub open spec fn judged<P: Fn(String) -> ErrorHandlingBehavior>(
    c: SupervisedComponent<P>,
    end: ComponentEnd,
    o: ComponentOutcome,
) -> bool {
    match end {
        ComponentEnd::Clean => o is Clean,
        ComponentEnd::Failed(e) => o matches ComponentOutcome::Failed(x, b) && x@ == e@ && says(
            c.on_error,
            e@,
            b,
        ),
        ComponentEnd::Panicked(e) => o matches ComponentOutcome::Panicked(x) && x@ == e@,
    }
}

/// What the outcome of a component means for all: an error counts where the policy said
/// so of it, and a panic always does.
pub open spec fn outcome_answer(name: Seq<char>, o: ComponentOutcome) -> Result<(), Seq<char>> {
    match o {
        ComponentOutcome::Clean => Ok(()),
        ComponentOutcome::Failed(e, b) => match b {
            ErrorHandlingBehavior::ShouldShutdown => Err("component '"@ + name + "' failed: "@ + e@),
            ErrorHandlingBehavior::ShouldStop => Ok(()),
        },
        ComponentOutcome::Panicked(e) => Err("component '"@ + name + "' panicked: "@ + e@),
    }
}

/// The first of the first `n` outcomes that counts decides.
pub open spec fn run_answer<P>(
    cs: Seq<SupervisedComponent<P>>,
    os: Seq<(usize, ComponentOutcome)>,
    n: int,
) -> Result<(), Seq<char>>
    decreases n,
{
    if n <= 0 {
        Ok(())
    } else {
        match run_answer(cs, os, n - 1) {
            Err(e) => Err(e),
            Ok(()) => outcome_answer(cs[os[n - 1].0 as int].name@, os[n - 1].1),
        }
    }
}

proof fn lemma_run_prefix<P>(
    cs: Seq<SupervisedComponent<P>>,
    os: Seq<(usize, ComponentOutcome)>,
    k: int,
    n: int,
)
    requires
        0 <= k <= n,
        run_answer(cs, os, k) is Err,
    ensures
        run_answer(cs, os, n) == run_answer(cs, os, k),
    decreases n,
{
    if k < n {
        lemma_run_prefix(cs, os, k, n - 1);
    }
}

/// What an outcome means for all, with its text.
fn answer_of(name: &String, o: &ComponentOutcome) -> (r: Result<(), String>)
    ensures
        match r {
            Ok(()) => outcome_answer(name@, *o) == Ok::<(), Seq<char>>(()),
            Err(m) => outcome_answer(name@, *o) == Err::<(), Seq<char>>(m@),
        },
{
    match o {
        ComponentOutcome::Clean => Ok(()),
        ComponentOutcome::Failed(e, b) => match b {
            ErrorHandlingBehavior::ShouldShutdown => {
                let head = concat3("component '", name.as_str(), "' failed: ");
                Err(concat2(head.as_str(), e.as_str()))
            },
            ErrorHandlingBehavior::ShouldStop => Ok(()),
        },
        ComponentOutcome::Panicked(e) => {
            let head = concat3("component '", name.as_str(), "' panicked: ");
            Err(concat2(head.as_str(), e.as_str()))
        },
    }
}

impl<P> Supervisor<P> {
    /// What the outcomes of the components, each by its index and in the order in which
    /// they are waited for, come to: the first failure that counts, or nothing where there
    /// is none.
    pub fn first_failure(&self, os: &Vec<(usize, ComponentOutcome)>) -> (r: Result<(), String>)
        requires
            forall|i: int| 0 <= i < os@.len() ==> (#[trigger] os@[i]).0 < self.components@.len(),
        ensures
            match r {
                Ok(()) => run_answer(self.components@, os@, os@.len() as int) == Ok::<(), Seq<char>>(
                    (),
                ),
                Err(m) => run_answer(self.components@, os@, os@.len() as int) == Err::<(), Seq<char>>(
                    m@,
                ),
            },
    {
        let mut i: usize = 0;
        while i < os.len()
            invariant
                i <= os@.len(),
                forall|i: int| 0 <= i < os@.len() ==> (#[trigger] os@[i]).0 < self.components@.len(),
                run_answer(self.components@, os@, i as int) == Ok::<(), Seq<char>>(()),
            decreases os@.len() - i,
        {
            let o = &os[i];
            if let Err(m) = answer_of(&self.components[o.0].name, &o.1) {
                proof {
                    lemma_run_prefix(self.components@, os@, i + 1, os@.len() as int);
                }
                return Err(m);
            }
            i += 1;
        }
        Ok(())
    }
}

impl<P: Fn(String) -> ErrorHandlingBehavior> Supervisor<P> {
    /// The outcome of a component's end: its policy is asked about its error.
    pub fn judge(&self, idx: usize, end: ComponentEnd) -> (o: ComponentOutcome)
        requires
            idx < self.components@.len(),
            forall|e: String| #[trigger]
                call_requires(self.components@[idx as int].on_error, (e,)),
        ensures
            judged(self.components@[idx as int], end, o),
    {
        match end {
            ComponentEnd::Clean => ComponentOutcome::Clean,
            ComponentEnd::Failed(e) => {
                let text = e.as_str().to_owned();
                let b = (self.components[idx].on_error)(e);
                ComponentOutcome::Failed(text, b)
            },
            ComponentEnd::Panicked(e) => ComponentOutcome::Panicked(e),
        }
    }

    /// Decides, when a component has ended, whether the others go on: the behavior that the
    /// component's policy gives for its error decides.
    pub fn component_ended(&self, idx: usize, end: ComponentEnd) -> (r: Result<(), String>)
        requires
            idx < self.components@.len(),
            forall|e: String| #[trigger]
                call_requires(self.components@[idx as int].on_error, (e,)),
        ensures
            exists|o: ComponentOutcome| #[trigger]
                judged(self.components@[idx as int], end, o) && match r {
                    Ok(()) => outcome_answer(self.components@[idx as int].name@, o) == Ok::<
                        (),
                        Seq<char>,
                    >(()),
                    Err(m) => outcome_answer(self.components@[idx as int].name@, o) == Err::<
                        (),
                        Seq<char>,
                    >(m@),
                },
    {
        let o = self.judge(idx, end);
        answer_of(&self.components[idx].name, &o)
    }
}

} // verus!
