//! Laws of the order in which components start and what their ends mean, and of the
//! numbers and records that bytes hold.

use vstd::arithmetic::power::{lemma_pow0, lemma_pow1, lemma_pow_adds, pow};
use vstd::prelude::*;

use crate::assoc::{lemma_with_value, value_of, with_value};
use crate::bytes::{be_nat, be_seq};
use crate::records::{
    bytes_or_none, first_byte_of, number_of, number_or_zero, record_of, status_of, Field,
    GlobalValueView, RecordView,
};
use crate::supervisor::{
    circle, deps_of, edges_of, find_name, in_degree, kahn, kahn_start, law_circles_cannot_start,
    law_dependencies_start_first, lemma_edges_ok, outcome_answer, relaxed, resolve, roots,
    run_answer, sorted, start_order, ComponentOutcome, Edge, ErrorHandlingBehavior, Kahn,
    SupervisedComponent,
};

verus! {

/// A dependency names the last component that has its name, and none exactly where no
/// component has it.
pub proof fn law_last_of_a_name<P>(cs: Seq<SupervisedComponent<P>>, name: Seq<char>, j: int)
    ensures
        match resolve(cs, name) {
            Some(i) => 0 <= i < cs.len() && cs[i].name@ == name && (i < j < cs.len()
                ==> cs[j].name@ != name),
            None => 0 <= j < cs.len() ==> cs[j].name@ != name,
        },
{
    lemma_last_of_a_name(cs, name, cs.len() as int, j);
}

proof fn lemma_last_of_a_name<P>(
    cs: Seq<SupervisedComponent<P>>,
    name: Seq<char>,
    n: int,
    j: int,
)
    requires
        0 <= n <= cs.len(),
    ensures
        match find_name(cs, name, n) {
            Some(i) => 0 <= i < n && cs[i].name@ == name && (i < j < n ==> cs[j].name@ != name),
            None => 0 <= j < n ==> cs[j].name@ != name,
        },
    decreases n,
{
    if n > 0 && cs[n - 1].name@ != name {
        lemma_last_of_a_name(cs, name, n - 1, j);
    }
}

/// Does dependency `k` of component `i` name a component?
pub open spec fn names_one<P>(cs: Seq<SupervisedComponent<P>>, i: int, k: int) -> bool {
    exists|j: int| 0 <= j < cs.len() && (#[trigger] cs[j]).name@ == cs[i].deps@[k]@
}

/// Does component `i` depend on component `d`?
pub open spec fn depends_on<P>(cs: Seq<SupervisedComponent<P>>, i: int, d: int) -> bool {
    exists|k: int|
        0 <= k < cs[i].deps@.len() && resolve(cs, (#[trigger] cs[i].deps@[k])@) == Some(d)
}

proof fn lemma_names_one<P>(cs: Seq<SupervisedComponent<P>>, i: int, k: int)
    ensures
        names_one(cs, i, k) <==> resolve(cs, cs[i].deps@[k]@) is Some,
{
    let name = cs[i].deps@[k]@;
    law_last_of_a_name(cs, name, 0);
    if names_one(cs, i, k) {
        let j = choose|j: int| 0 <= j < cs.len() && (#[trigger] cs[j]).name@ == name;
        law_last_of_a_name(cs, name, j);
    }
}

proof fn lemma_deps<P>(cs: Seq<SupervisedComponent<P>>, i: int, n: int)
    requires
        0 <= n <= cs[i].deps@.len(),
    ensures
        match deps_of(cs, i, n) {
            Ok(es) => es.len() == n && forall|k: int|
                0 <= k < n ==> (#[trigger] es[k]).1 == i && resolve(cs, cs[i].deps@[k]@) == Some(
                    es[k].0,
                ),
            Err(e) => e.0 == i && 0 <= e.1 < n && resolve(cs, cs[i].deps@[e.1]@) is None && forall|
                k: int,
            |
                0 <= k < e.1 ==> resolve(cs, (#[trigger] cs[i].deps@[k])@) is Some,
        },
    decreases n,
{
    if n > 0 {
        lemma_deps(cs, i, n - 1);
        if let Ok(before) = deps_of(cs, i, n - 1) {
            if resolve(cs, cs[i].deps@[n - 1]@) is None {
                assert forall|k: int| 0 <= k < n - 1 implies resolve(
                    cs,
                    (#[trigger] cs[i].deps@[k])@,
                ) is Some by {
                    assert(before[k].1 == i);
                }
            }
        }
    }
}

/// Is this dependency among the pairs?
pub open spec fn has_edge(es: Seq<Edge>, d: int, i: int) -> bool {
    exists|t: int| 0 <= t < es.len() && #[trigger] es[t] == (d, i)
}

proof fn lemma_edges<P>(cs: Seq<SupervisedComponent<P>>, n: int, d: int, i: int)
    requires
        0 <= n <= cs.len(),
    ensures
        match edges_of(cs, n) {
            Ok(es) => (has_edge(es, d, i) <==> 0 <= i < n && depends_on(cs, i, d)) && forall|
                a: int,
                k: int,
            |
                0 <= a < n && 0 <= k < cs[a].deps@.len() ==> resolve(
                    cs,
                    (#[trigger] cs[a].deps@[k])@,
                ) is Some,
            Err(e) => 0 <= e.0 < n && 0 <= e.1 < cs[e.0].deps@.len() && resolve(
                cs,
                cs[e.0].deps@[e.1]@,
            ) is None && forall|a: int, k: int|
                0 <= k < cs[a].deps@.len() && (0 <= a < e.0 || a == e.0 && k < e.1) ==> resolve(
                    cs,
                    (#[trigger] cs[a].deps@[k])@,
                ) is Some,
        },
    decreases n,
{
    if n > 0 {
        let m = n - 1;
        let c = cs[m].deps@.len() as int;
        lemma_edges(cs, m, d, i);
        lemma_deps(cs, m, c);
        if let Ok(es) = edges_of(cs, m) {
            if let Ok(more) = deps_of(cs, m, c) {
                let all = es + more;
                if has_edge(all, d, i) {
                    let t = choose|t: int| 0 <= t < all.len() && #[trigger] all[t] == (d, i);
                    if t < es.len() {
                        assert(es[t] == (d, i));
                    } else {
                        assert(more[t - es.len()] == (d, i));
                        assert(resolve(cs, cs[m].deps@[t - es.len()]@) == Some(d));
                        assert(depends_on(cs, m, d));
                    }
                }
                if 0 <= i < n && depends_on(cs, i, d) {
                    if i < m {
                        let t = choose|t: int| 0 <= t < es.len() && #[trigger] es[t] == (d, i);
                        assert(all[t] == (d, i));
                    } else {
                        let k = choose|k: int|
                            0 <= k < cs[i].deps@.len() && resolve(cs, (#[trigger] cs[i].deps@[k])@)
                                == Some(d);
                        assert(more[k] == (d, i));
                        assert(all[es.len() + k] == (d, i));
                    }
                }
                assert forall|a: int, k: int|
                    0 <= a < n && 0 <= k < cs[a].deps@.len() implies resolve(
                    cs,
                    (#[trigger] cs[a].deps@[k])@,
                ) is Some by {
                    if a == m {
                        assert(more[k].1 == m);
                    }
                }
            }
        }
    }
}

/// Where components can start, the order holds each of them once, and every component
/// behind all those that it depends on.
pub proof fn law_order_of_components<P>(cs: Seq<SupervisedComponent<P>>, i: int, d: int)
    ensures
        sorted(cs) matches Ok(o) ==> {
            &&& o.len() == cs.len()
            &&& o.no_duplicates()
            &&& forall|k: int| 0 <= k < o.len() ==> 0 <= #[trigger] o[k] < cs.len()
            &&& 0 <= i < cs.len() ==> o.contains(i)
            &&& 0 <= i < cs.len() && depends_on(cs, i, d) ==> exists|a: int, b: int|
                0 <= a < b < o.len() && #[trigger] o[a] == d && #[trigger] o[b] == i
        },
{
    let n = cs.len() as int;
    if let Ok(es) = edges_of(cs, n) {
        lemma_edges_ok(cs, n);
        law_dependencies_start_first(es, n);
        lemma_edges(cs, n, d, i);
        let o = start_order(es, n);
        if o.len() == n && 0 <= i < n && depends_on(cs, i, d) {
            let t = choose|t: int| 0 <= t < es.len() && #[trigger] es[t] == (d, i);
            assert(o.contains(i));
            let b = choose|b: int| 0 <= b < o.len() && o[b] == i;
            assert(es[t].1 == o[b]);
            assert(o.take(b).contains(d));
            let a = choose|a: int| 0 <= a < o.take(b).len() && o.take(b)[a] == d;
            assert(o[a] == d && o[b] == i);
        }
    }
}

/// Does component `i` depend on one of these?
#[verifier::opaque]
pub open spec fn needs_one<P>(cs: Seq<SupervisedComponent<P>>, c: Set<int>, i: int) -> bool {
    exists|d: int| c.contains(d) && #[trigger] depends_on(cs, i, d)
}

/// Do these components depend on one another in a circle? Each depends on one of them.
pub open spec fn in_a_circle<P>(cs: Seq<SupervisedComponent<P>>, c: Set<int>) -> bool {
    &&& exists|i: int| c.contains(i)
    &&& forall|i: int| #[trigger] c.contains(i) ==> 0 <= i < cs.len() && needs_one(cs, c, i)
}

proof fn lemma_none_in_a_circle<P>(cs: Seq<SupervisedComponent<P>>, c: Set<int>, k: int)
    requires
        in_a_circle(cs, c),
        sorted(cs) is Ok,
        0 <= k < sorted(cs)->Ok_0.len(),
    ensures
        !c.contains(sorted(cs)->Ok_0[k]),
    decreases k,
{
    let o = sorted(cs)->Ok_0;
    let i = o[k];
    if c.contains(i) {
        assert(needs_one(cs, c, i));
        let d = lemma_needed(cs, c, i);
        law_order_of_components(cs, i, d);
        let (a, b) = choose|a: int, b: int|
            0 <= a < b < o.len() && #[trigger] o[a] == d && #[trigger] o[b] == i;
        assert(b == k);
        lemma_none_in_a_circle(cs, c, a);
    }
}

proof fn lemma_needed<P>(cs: Seq<SupervisedComponent<P>>, c: Set<int>, i: int) -> (d: int)
    requires
        needs_one(cs, c, i),
    ensures
        c.contains(d),
        depends_on(cs, i, d),
{
    reveal(needs_one);
    choose|d: int| c.contains(d) && #[trigger] depends_on(cs, i, d)
}

proof fn lemma_needs<P>(cs: Seq<SupervisedComponent<P>>, c: Set<int>, i: int, d: int)
    requires
        c.contains(d),
        depends_on(cs, i, d),
    ensures
        needs_one(cs, c, i),
{
    reveal(needs_one);
}

/// Components cannot start exactly where a dependency names none of them, or where
/// some depend on one another in a circle. The first dependency that names none is
/// reported, before any circle.
pub proof fn law_why_components_cannot_start<P>(cs: Seq<SupervisedComponent<P>>, i: int, k: int)
    ensures
        0 <= i < cs.len() && 0 <= k < cs[i].deps@.len() && !names_one(cs, i, k) && (forall|
            a: int,
            b: int,
        |
            0 <= b < cs[a].deps@.len() && (0 <= a < i || a == i && b < k) ==> #[trigger] names_one(
                cs,
                a,
                b,
            )) ==> sorted(cs) == Err::<Seq<int>, Seq<char>>(
            "component '"@ + cs[i].name@ + "' depends on unknown component '"@ + cs[i].deps@[k]@
                + "'"@,
        ),
        (forall|a: int, b: int|
            0 <= a < cs.len() && 0 <= b < cs[a].deps@.len() ==> #[trigger] names_one(cs, a, b)) ==> (
        sorted(cs) is Ok <==> !exists|c: Set<int>| #[trigger] in_a_circle(cs, c)) && (sorted(
            cs,
        ) is Err ==> sorted(cs)->Err_0 == "circular dependency detected in component graph"@),
{
    let n = cs.len() as int;
    lemma_edges(cs, n, 0, 0);
    match edges_of(cs, n) {
        Err(e) => {
            lemma_names_one(cs, e.0, e.1);
            if 0 <= i < n && 0 <= k < cs[i].deps@.len() && !names_one(cs, i, k) && (forall|
                a: int,
                b: int,
            |
                0 <= b < cs[a].deps@.len() && (0 <= a < i || a == i && b < k)
                    ==> #[trigger] names_one(cs, a, b)) {
                lemma_names_one(cs, i, k);
                assert(resolve(cs, cs[i].deps@[k]@) is None);
                assert(!(0 <= i < e.0 || i == e.0 && k < e.1));
                assert(!names_one(cs, e.0, e.1));
                assert(!(0 <= e.0 < i || e.0 == i && e.1 < k));
                assert(e.0 == i && e.1 == k);
            }
        },
        Ok(es) => {
            if 0 <= i < n && 0 <= k < cs[i].deps@.len() {
                lemma_names_one(cs, i, k);
                assert(resolve(cs, cs[i].deps@[k]@) is Some);
            }
            lemma_edges_ok(cs, n);
            law_dependencies_start_first(es, n);
            if exists|c: Set<int>| #[trigger] in_a_circle(cs, c) {
                let c = choose|c: Set<int>| #[trigger] in_a_circle(cs, c);
                lemma_circle_stops(cs, c);
            }
            if sorted(cs) is Err {
                lemma_circle_found(cs, es);
            }
        },
    }
}

proof fn lemma_circle_stops<P>(cs: Seq<SupervisedComponent<P>>, c: Set<int>)
    requires
        in_a_circle(cs, c),
    ensures
        sorted(cs) is Err,
{
    if sorted(cs) is Ok {
        let o = sorted(cs)->Ok_0;
        let i = choose|i: int| c.contains(i);
        assert(0 <= i < cs.len());
        law_order_of_components(cs, i, 0);
        let k = choose|k: int| 0 <= k < o.len() && o[k] == i;
        lemma_none_in_a_circle(cs, c, k);
    }
}

proof fn lemma_circle_found<P>(cs: Seq<SupervisedComponent<P>>, es: Seq<Edge>)
    requires
        edges_of(cs, cs.len() as int) == Ok::<Seq<Edge>, (int, int)>(es),
        sorted(cs) is Err,
    ensures
        exists|c: Set<int>| #[trigger] in_a_circle(cs, c),
{
    let n = cs.len() as int;
    lemma_edges_ok(cs, n);
    law_dependencies_start_first(es, n);
    law_circles_cannot_start(es, n);
    let c = choose|c: Set<int>| circle(es, n, c);
    assert forall|i: int| #[trigger] c.contains(i) implies 0 <= i < n && needs_one(cs, c, i) by {
        let t = choose|t: int|
            0 <= t < es.len() && (#[trigger] es[t]).1 == i && c.contains(es[t].0);
        let d = es[t].0;
        lemma_has_edge(es, t, d, i);
        lemma_edges(cs, n, d, i);
        lemma_needs(cs, c, i, d);
    }
    assert(in_a_circle(cs, c));
}

proof fn lemma_has_edge(es: Seq<Edge>, t: int, d: int, i: int)
    requires
        0 <= t < es.len(),
        es[t].0 == d,
        es[t].1 == i,
    ensures
        has_edge(es, d, i),
{
    assert(es[t] == (d, i));
}

proof fn lemma_no_edges(n: int, k: int)
    requires
        0 <= k <= n,
    ensures
        kahn(Seq::<Edge>::empty(), n, k).ready == Seq::new((n - k) as nat, |i: int| i),
        kahn(Seq::<Edge>::empty(), n, k).order == Seq::new(k as nat, |i: int| n - 1 - i),
    decreases k,
{
    let es = Seq::<Edge>::empty();
    if k == 0 {
        lemma_all_roots(n);
        assert(kahn_start(es, n).order =~= Seq::new(0, |i: int| n - 1 - i));
    } else {
        lemma_no_edges(n, k - 1);
        let s = kahn(es, n, k - 1);
        assert(s.ready.last() == n - k);
        assert(s.ready.drop_last() =~= Seq::new((n - k) as nat, |i: int| i));
        assert(s.order.push(n - k) =~= Seq::new(k as nat, |i: int| n - 1 - i));
        let t = Kahn { ready: s.ready.drop_last(), order: s.order.push(n - k), ..s };
        assert(relaxed(es, n - k, t, 0) == t);
    }
}

proof fn lemma_all_roots(n: int)
    requires
        0 <= n,
    ensures
        roots(Seq::<Edge>::empty(), n) == Seq::new(n as nat, |i: int| i),
    decreases n,
{
    if n > 0 {
        lemma_all_roots(n - 1);
        assert(in_degree(Seq::<Edge>::empty(), n - 1, 0) == 0);
        assert(Seq::new((n - 1) as nat, |i: int| i).push(n - 1) =~= Seq::new(n as nat, |i: int| i));
    } else {
        assert(roots(Seq::<Edge>::empty(), n) =~= Seq::new(0, |i: int| i));
    }
}

/// Of components that can start at the same time the one that became ready last starts
/// first: those without any dependencies start from the last to the first.
pub proof fn law_free_components_start_from_the_last(n: int)
    requires
        0 <= n,
    ensures
        start_order(Seq::<Edge>::empty(), n).len() == n,
        forall|k: int|
            0 <= k < n ==> #[trigger] start_order(Seq::<Edge>::empty(), n)[k] == n - 1 - k,
{
    lemma_no_edges(n, n);
}

/// A clean end is no failure, a panic always is one, and an error is one exactly where
/// the policy says that all shut down. The text names the component and the error.
pub proof fn law_ends_of_components(name: Seq<char>, e: String)
    ensures
        outcome_answer(name, ComponentOutcome::Clean) is Ok,
        outcome_answer(name, ComponentOutcome::Failed(e, ErrorHandlingBehavior::ShouldStop)) is Ok,
        outcome_answer(name, ComponentOutcome::Failed(e, ErrorHandlingBehavior::ShouldShutdown))
            == Err::<(), Seq<char>>("component '"@ + name + "' failed: "@ + e@),
        outcome_answer(name, ComponentOutcome::Panicked(e)) == Err::<(), Seq<char>>(
            "component '"@ + name + "' panicked: "@ + e@,
        ),
{
}

/// The answer of a run is that of the first outcome that is a failure, under the name
/// of its own component; without one it is none.
pub proof fn law_first_failure_decides<P>(
    cs: Seq<SupervisedComponent<P>>,
    os: Seq<(usize, ComponentOutcome)>,
    k: int,
    n: int,
)
    requires
        0 <= n <= os.len(),
    ensures
        0 <= k < n && outcome_answer(cs[os[k].0 as int].name@, os[k].1) is Err && (forall|j: int|
            0 <= j < k ==> outcome_answer(
                cs[(#[trigger] os[j]).0 as int].name@,
                os[j].1,
            ) is Ok) ==> run_answer(cs, os, n) == outcome_answer(
            cs[os[k].0 as int].name@,
            os[k].1,
        ),
        (forall|j: int|
            0 <= j < n ==> outcome_answer(
                cs[(#[trigger] os[j]).0 as int].name@,
                os[j].1,
            ) is Ok) ==> run_answer(cs, os, n) is Ok,
    decreases n,
{
    if n > 0 {
        law_first_failure_decides(cs, os, k, n - 1);
        assert(os[n - 1] == os[n - 1]);
    }
}

/// Bytes one after the other spell the number that the first ones spell, moved up by
/// the bytes behind them; one byte spells itself.
pub proof fn law_bytes_spell_numbers(a: Seq<u8>, b: Seq<u8>, x: u8)
    ensures
        be_nat(Seq::<u8>::empty()) == 0,
        be_nat(seq![x]) == x,
        be_nat(a + b) == be_nat(a) * pow(256, b.len()) + be_nat(b),
    decreases b.len(),
{
    reveal_with_fuel(be_nat, 2);
    assert(seq![x].drop_last() =~= Seq::<u8>::empty());
    if b.len() == 0 {
        assert(a + b =~= a);
        lemma_pow0(256);
    } else {
        let front = b.drop_last();
        law_bytes_spell_numbers(a, front, x);
        assert((a + b).drop_last() =~= a + front);
        lemma_pow_adds(256, front.len(), 1);
        lemma_pow1(256);
        let p = pow(256, front.len());
        let m = be_nat(a);
        assert(pow(256, b.len()) == p * 256);
        assert((m * p) * 256 == m * (p * 256)) by (nonlinear_arith);
        assert((m * p + be_nat(front)) * 256 == (m * p) * 256 + be_nat(front) * 256)
            by (nonlinear_arith);
    }
}

/// Bytes and the number that they spell give one another back.
pub proof fn law_numbers_round_trip(s: Seq<u8>)
    ensures
        be_seq(be_nat(s), s.len()) == s,
        be_seq(be_nat(s), s.len()).len() == s.len(),
    decreases s.len(),
{
    if s.len() > 0 {
        let front = s.drop_last();
        law_numbers_round_trip(front);
        let x = be_nat(s);
        assert(x / 256 == be_nat(front) && x % 256 == s.last());
        assert(front.push(s.last()) =~= s);
    } else {
        assert(be_seq(be_nat(s), 0) =~= s);
    }
}

/// A number field holds the number that its eight bytes spell; one of another length,
/// or that is not set, holds none and reads as zero.
pub proof fn law_number_fields(r: RecordView, f: Field, b: Seq<u8>)
    ensures
        b.len() == 8 ==> number_of(with_value(r, f, b), f) == Some(be_nat(b)) && number_or_zero(
            with_value(r, f, b),
            f,
        ) == be_nat(b),
        b.len() != 8 ==> number_of(with_value(r, f, b), f) is None && number_or_zero(
            with_value(r, f, b),
            f,
        ) == 0,
        b.len() > 0 ==> first_byte_of(with_value(r, f, b), f) == Some(b[0]),
        b.len() == 0 ==> first_byte_of(with_value(r, f, b), f) is None,
        bytes_or_none(with_value(r, f, b), f) == b,
        value_of(r, f) is None ==> number_of(r, f) is None && number_or_zero(r, f) == 0
            && first_byte_of(r, f) is None && bytes_or_none(r, f).len() == 0,
        forall|g: Field|
            g != f ==> #[trigger] value_of(with_value(r, f, b), g) == value_of(r, g),
{
    lemma_with_value(r, f, b, f);
    assert forall|g: Field| g != f implies #[trigger] value_of(with_value(r, f, b), g) == value_of(
        r,
        g,
    ) by {
        lemma_with_value(r, f, b, g);
    }
}

/// The status bytes from zero to five each name their own standing, and any other byte
/// names none.
pub proof fn law_status_bytes(b: u8)
    ensures
        status_of(b) is Joining <==> b == 0,
        status_of(b) is Active <==> b == 1,
        status_of(b) is Paused <==> b == 2,
        status_of(b) is Leaving <==> b == 3,
        status_of(b) is Rejected <==> b == 4,
        status_of(b) is Kicked <==> b == 5,
        status_of(b) is Unknown <==> b > 5,
{
}

/// A place that holds a record reads as that record, and any other as one without
/// fields.
pub proof fn law_records_are_read(r: RecordView, l: Seq<Seq<u8>>, f: Field)
    ensures
        record_of(GlobalValueView::Fields(r)) == r,
        value_of(record_of(GlobalValueView::Empty), f) is None,
        value_of(record_of(GlobalValueView::Links(l)), f) is None,
{
}

} // verus!
