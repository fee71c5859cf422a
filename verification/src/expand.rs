//! Expanding a wildcarded query pattern into the concrete signatures it
//! denotes.
//!
//! Expansion is an incremental Cartesian product: a growing collection
//! of partial signatures, extended position by position with every
//! admissible feedback state of the query symbol there.  The collection
//! order is pinned down by `expand_spec`, so results are reproducible.

use vstd::prelude::*;
use vstd::arithmetic::power::pow;

use crate::states::PatternState;
use crate::states::QueryPatternState;
use crate::states::lemma_possible_states;
use crate::states::possible_states_spec;
use crate::states::state_matches;

verus! {

/// A concrete signature matches a query pattern when it has the same
/// length and every position holds a state the query symbol admits.
pub open spec fn pattern_matches(q: Seq<QueryPatternState>, s: Seq<PatternState>) -> bool {
    &&& s.len() == q.len()
    &&& forall|i: int| 0 <= i < q.len() ==> state_matches(q[i], #[trigger] s[i])
}

/// One partial signature extended by each admissible state, in order.
pub open spec fn extend_one(r: Seq<PatternState>, ps: Seq<PatternState>) -> Seq<Seq<PatternState>>
    decreases ps.len(),
{
    if ps.len() == 0 {
        Seq::empty()
    } else {
        extend_one(r, ps.drop_last()).push(r.push(ps.last()))
    }
}

/// Every partial signature extended by each admissible state: one
/// generation of the Cartesian product.
pub open spec fn extend_all(
    rs: Seq<Seq<PatternState>>,
    ps: Seq<PatternState>,
) -> Seq<Seq<PatternState>>
    decreases rs.len(),
{
    if rs.len() == 0 {
        Seq::empty()
    } else {
        extend_all(rs.drop_last(), ps) + extend_one(rs.last(), ps)
    }
}

/// The concrete signatures a query pattern denotes, in generation order.
pub open spec fn expand_spec(q: Seq<QueryPatternState>) -> Seq<Seq<PatternState>>
    decreases q.len(),
{
    if q.len() == 0 {
        seq![Seq::empty()]
    } else {
        extend_all(expand_spec(q.drop_last()), possible_states_spec(q.last()))
    }
}

proof fn lemma_extend_one(r: Seq<PatternState>, ps: Seq<PatternState>)
    ensures
        extend_one(r, ps).len() == ps.len(),
        forall|k: int| 0 <= k < ps.len() ==> extend_one(r, ps)[k] == r.push(ps[k]),
    decreases ps.len(),
{
    if ps.len() > 0 {
        lemma_extend_one(r, ps.drop_last());
    }
}

proof fn lemma_extend_all_len(rs: Seq<Seq<PatternState>>, ps: Seq<PatternState>)
    ensures
        extend_all(rs, ps).len() == rs.len() * ps.len(),
    decreases rs.len(),
{
    if rs.len() == 0 {
        assert(rs.len() * ps.len() == 0);
    } else {
        lemma_extend_all_len(rs.drop_last(), ps);
        lemma_extend_one(rs.last(), ps);
        assert((rs.len() - 1) * ps.len() + ps.len() == rs.len() * ps.len()) by (nonlinear_arith);
    }
}

proof fn lemma_extend_all_contains(rs: Seq<Seq<PatternState>>, ps: Seq<PatternState>)
    ensures
        forall|t: Seq<PatternState>|
            extend_all(rs, ps).contains(t) <==> (exists|j: int, k: int|
                0 <= j < rs.len() && 0 <= k < ps.len() && t == #[trigger] rs[j].push(ps[k])),
    decreases rs.len(),
{
    if rs.len() == 0 {
    } else {
        let head = extend_all(rs.drop_last(), ps);
        let tail = extend_one(rs.last(), ps);
        lemma_extend_all_contains(rs.drop_last(), ps);
        lemma_extend_one(rs.last(), ps);
        assert forall|t: Seq<PatternState>|
            extend_all(rs, ps).contains(t) <==> (exists|j: int, k: int|
                0 <= j < rs.len() && 0 <= k < ps.len() && t == #[trigger] rs[j].push(ps[k])) by {
            if extend_all(rs, ps).contains(t) {
                let a = choose|a: int| 0 <= a < extend_all(rs, ps).len() && extend_all(rs, ps)[a]
                    == t;
                if a < head.len() {
                    assert(head.contains(t));
                    let (j, k) = choose|j: int, k: int|
                        0 <= j < rs.drop_last().len() && 0 <= k < ps.len() && t
                            == #[trigger] rs.drop_last()[j].push(ps[k]);
                    assert(rs[j] == rs.drop_last()[j]);
                    assert(t == rs[j].push(ps[k]));
                } else {
                    let k = a - head.len();
                    assert(tail[k] == t);
                    assert(t == rs[rs.len() - 1].push(ps[k]));
                }
            }
            if exists|j: int, k: int|
                0 <= j < rs.len() && 0 <= k < ps.len() && t == #[trigger] rs[j].push(ps[k]) {
                let (j, k) = choose|j: int, k: int|
                    0 <= j < rs.len() && 0 <= k < ps.len() && t == #[trigger] rs[j].push(ps[k]);
                if j < rs.len() - 1 {
                    assert(rs.drop_last()[j] == rs[j]);
                    assert(head.contains(t));
                    let a = choose|a: int| 0 <= a < head.len() && head[a] == t;
                    assert(extend_all(rs, ps)[a] == t);
                    assert(extend_all(rs, ps).contains(t));
                } else {
                    assert(tail[k] == t);
                    assert(extend_all(rs, ps)[head.len() + k] == t);
                    assert(extend_all(rs, ps).contains(t));
                }
            }
        }
    }
}

proof fn lemma_push_injective(
    r1: Seq<PatternState>,
    pa: PatternState,
    r2: Seq<PatternState>,
    pb: PatternState,
)
    requires
        r1.push(pa) == r2.push(pb),
    ensures
        r1 == r2 && pa == pb,
{
    assert(r1.push(pa).len() == r1.len() + 1);
    assert(r2.push(pb).len() == r2.len() + 1);
    assert(r1.len() == r2.len());
    assert(r1.push(pa)[r1.len() as int] == pa);
    assert(r2.push(pb)[r2.len() as int] == pb);
    assert forall|i: int| 0 <= i < r1.len() implies r1[i] == r2[i] by {
        assert(r1[i] == r1.push(pa)[i]);
        assert(r2[i] == r2.push(pb)[i]);
    }
    assert(r1 =~= r2);
}

proof fn lemma_extend_all_distinct(rs: Seq<Seq<PatternState>>, ps: Seq<PatternState>)
    requires
        rs.no_duplicates(),
        ps.no_duplicates(),
    ensures
        extend_all(rs, ps).no_duplicates(),
    decreases rs.len(),
{
    if rs.len() > 0 {
        let head = extend_all(rs.drop_last(), ps);
        let tail = extend_one(rs.last(), ps);
        lemma_extend_all_distinct(rs.drop_last(), ps);
        lemma_extend_all_contains(rs.drop_last(), ps);
        lemma_extend_one(rs.last(), ps);
        assert forall|a: int, b: int|
            0 <= a < b < extend_all(rs, ps).len() implies extend_all(rs, ps)[a] != extend_all(
            rs,
            ps,
        )[b] by {
            if b < head.len() {
                assert(extend_all(rs, ps)[a] == head[a]);
                assert(extend_all(rs, ps)[b] == head[b]);
            } else if a >= head.len() {
                let ka = a - head.len();
                let kb = b - head.len();
                assert(extend_all(rs, ps)[a] == rs.last().push(ps[ka]));
                assert(extend_all(rs, ps)[b] == rs.last().push(ps[kb]));
                if rs.last().push(ps[ka]) == rs.last().push(ps[kb]) {
                    lemma_push_injective(rs.last(), ps[ka], rs.last(), ps[kb]);
                }
            } else {
                let kb = b - head.len();
                assert(extend_all(rs, ps)[a] == head[a]);
                assert(extend_all(rs, ps)[b] == rs.last().push(ps[kb]));
                assert(head.contains(head[a]));
                let (j, k) = choose|j: int, k: int|
                    0 <= j < rs.drop_last().len() && 0 <= k < ps.len() && head[a]
                        == #[trigger] rs.drop_last()[j].push(ps[k]);
                if head[a] == rs.last().push(ps[kb]) {
                    lemma_push_injective(rs.drop_last()[j], ps[k], rs.last(), ps[kb]);
                    assert(rs[j] == rs[rs.len() - 1]);
                }
            }
        }
    }
}

/// Expansion is sound and complete: the generated collection contains
/// exactly the signatures that match the query pattern, each exactly
/// once.
pub proof fn lemma_expand_characterization(q: Seq<QueryPatternState>)
    ensures
        forall|t: Seq<PatternState>| expand_spec(q).contains(t) <==> pattern_matches(q, t),
        expand_spec(q).no_duplicates(),
    decreases q.len(),
{
    if q.len() == 0 {
        assert forall|t: Seq<PatternState>|
            expand_spec(q).contains(t) <==> pattern_matches(q, t) by {
            if pattern_matches(q, t) {
                assert(t =~= Seq::<PatternState>::empty());
                assert(expand_spec(q)[0] == t);
            }
            if expand_spec(q).contains(t) {
                assert(t == expand_spec(q)[0]);
            }
        }
    } else {
        let q0 = q.drop_last();
        let ps = possible_states_spec(q.last());
        lemma_expand_characterization(q0);
        lemma_possible_states(q.last());
        lemma_extend_all_contains(expand_spec(q0), ps);
        lemma_extend_all_distinct(expand_spec(q0), ps);
        assert forall|t: Seq<PatternState>|
            expand_spec(q).contains(t) <==> pattern_matches(q, t) by {
            if expand_spec(q).contains(t) {
                let (j, k) = choose|j: int, k: int|
                    0 <= j < expand_spec(q0).len() && 0 <= k < ps.len() && t
                        == #[trigger] expand_spec(q0)[j].push(ps[k]);
                let r = expand_spec(q0)[j];
                assert(expand_spec(q0).contains(r));
                assert(pattern_matches(q0, r));
                assert(ps.contains(ps[k]));
                assert(state_matches(q.last(), ps[k]));
                assert forall|i: int| 0 <= i < q.len() implies state_matches(
                    q[i],
                    #[trigger] t[i],
                ) by {
                    if i < q.len() - 1 {
                        assert(t[i] == r[i]);
                        assert(q0[i] == q[i]);
                    } else {
                        assert(t[i] == ps[k]);
                    }
                }
            }
            if pattern_matches(q, t) {
                let r = t.drop_last();
                let p = t.last();
                assert(state_matches(q.last(), p)) by {
                    assert(state_matches(q[q.len() - 1], t[t.len() - 1]));
                }
                assert(pattern_matches(q0, r)) by {
                    assert forall|i: int| 0 <= i < q0.len() implies state_matches(
                        q0[i],
                        #[trigger] r[i],
                    ) by {
                        assert(r[i] == t[i]);
                        assert(q0[i] == q[i]);
                        assert(state_matches(q[i], t[i]));
                    }
                }
                assert(expand_spec(q0).contains(r));
                let j = choose|j: int| 0 <= j < expand_spec(q0).len() && expand_spec(q0)[j] == r;
                let k = choose|k: int| 0 <= k < ps.len() && ps[k] == p;
                assert(t =~= expand_spec(q0)[j].push(ps[k]));
            }
        }
    }
}

/// Copies a partial signature.
fn clone_states(v: &Vec<PatternState>) -> (r: Vec<PatternState>)
    ensures
        r@ == v@,
{
    let mut r: Vec<PatternState> = Vec::new();
    let mut i: usize = 0;
    while i < v.len()
        invariant
            i <= v@.len(),
            r@ == v@.take(i as int),
        decreases v@.len() - i,
    {
        r.push(v[i]);
        assert(v@.take(i as int + 1) =~= v@.take(i as int).push(v@[i as int]));
        i = i + 1;
    }
    assert(v@.take(v@.len() as int) =~= v@);
    r
}

/// Expands a query pattern into all concrete signatures that match it,
/// in the fixed generation order of `expand_spec`: position by position,
/// every partial signature is extended with each admissible state.
pub fn expand_query_pattern(pattern: &Vec<QueryPatternState>) -> (r: Vec<Vec<PatternState>>)
    ensures
        r@.len() == expand_spec(pattern@).len(),
        forall|k: int| 0 <= k < r@.len() ==> (#[trigger] r@[k])@ == expand_spec(pattern@)[k],
{
    let mut results: Vec<Vec<PatternState>> = Vec::new();
    results.push(Vec::new());
    assert(expand_spec(pattern@.take(0)) =~= seq![Seq::<PatternState>::empty()]);
    assert(results@[0]@ =~= Seq::<PatternState>::empty());
    let mut i: usize = 0;
    while i < pattern.len()
        invariant
            i <= pattern@.len(),
            results@.len() == expand_spec(pattern@.take(i as int)).len(),
            forall|k: int|
                0 <= k < results@.len() ==> (#[trigger] results@[k])@ == expand_spec(
                    pattern@.take(i as int),
                )[k],
        decreases pattern@.len() - i,
    {
        let ghost base = expand_spec(pattern@.take(i as int));
        let possible = pattern[i].possible_states();
        let ghost ps = possible@;
        let mut new_results: Vec<Vec<PatternState>> = Vec::new();
        assert(extend_all(base.take(0), ps) =~= Seq::<Seq<PatternState>>::empty());
        let mut j: usize = 0;
        while j < results.len()
            invariant
                j <= results@.len(),
                new_results@.len() == extend_all(base.take(j as int), ps).len(),
                forall|a: int|
                    0 <= a < new_results@.len() ==> (#[trigger] new_results@[a])@ == extend_all(
                        base.take(j as int),
                        ps,
                    )[a],
            decreases results@.len() - j,
        {
            let ghost pre = extend_all(base.take(j as int), ps);
            assert(extend_one(base[j as int], ps.take(0)) =~= Seq::<Seq<PatternState>>::empty());
            let mut k: usize = 0;
            while k < possible.len()
                invariant
                    k <= ps.len(),
                    j < results@.len(),
                    new_results@.len() == pre.len() + extend_one(
                        base[j as int],
                        ps.take(k as int),
                    ).len(),
                    forall|a: int| 0 <= a < pre.len() ==> (#[trigger] new_results@[a])@ == pre[a],
                    forall|a: int|
                        pre.len() <= a < new_results@.len() ==> (#[trigger] new_results@[a])@
                            == extend_one(base[j as int], ps.take(k as int))[a - pre.len()],
                decreases ps.len() - k,
            {
                let mut nr = clone_states(&results[j]);
                nr.push(possible[k]);
                assert(nr@ == base[j as int].push(ps[k as int]));
                new_results.push(nr);
                proof {
                    let t = ps.take(k as int + 1);
                    assert(t.drop_last() =~= ps.take(k as int));
                    assert(t.last() == ps[k as int]);
                    assert(extend_one(base[j as int], t) == extend_one(
                        base[j as int],
                        ps.take(k as int),
                    ).push(base[j as int].push(ps[k as int])));
                }
                k = k + 1;
            }
            proof {
                assert(ps.take(ps.len() as int) =~= ps);
                let t = base.take(j as int + 1);
                assert(t.drop_last() =~= base.take(j as int));
                assert(t.last() == base[j as int]);
                assert(extend_all(t, ps) == pre + extend_one(base[j as int], ps));
            }
            j = j + 1;
        }
        proof {
            assert(base.take(base.len() as int) =~= base);
            let t = pattern@.take(i as int + 1);
            assert(t.drop_last() =~= pattern@.take(i as int));
            assert(t.last() == pattern@[i as int]);
            assert(expand_spec(t) == extend_all(base, ps));
        }
        results = new_results;
        i = i + 1;
    }
    assert(pattern@.take(pattern@.len() as int) =~= pattern@);
    results
}

/// An all-wildcard pattern of length `L` denotes exactly `3^L` distinct
/// signatures.
pub proof fn lemma_expand_all_wildcards(q: Seq<QueryPatternState>)
    requires
        forall|i: int| 0 <= i < q.len() ==> q[i] == QueryPatternState::Any,
    ensures
        expand_spec(q).len() == pow(3, q.len()),
        expand_spec(q).no_duplicates(),
        forall|k: int| 0 <= k < expand_spec(q).len() ==> (#[trigger] expand_spec(q)[k]).len()
            == q.len(),
    decreases q.len(),
{
    reveal(pow);
    lemma_expand_characterization(q);
    assert forall|k: int|
        0 <= k < expand_spec(q).len() implies (#[trigger] expand_spec(q)[k]).len() == q.len() by {
        assert(expand_spec(q).contains(expand_spec(q)[k]));
        assert(pattern_matches(q, expand_spec(q)[k]));
    }
    if q.len() == 0 {
        assert(pow(3, 0) == 1);
    } else {
        let q0 = q.drop_last();
        lemma_expand_all_wildcards(q0);
        lemma_extend_all_len(expand_spec(q0), possible_states_spec(q.last()));
        assert(possible_states_spec(q.last()).len() == 3);
        assert(pow(3, q.len()) == 3 * pow(3, (q.len() - 1) as nat));
        assert(expand_spec(q).len() == pow(3, (q.len() - 1) as nat) * 3);
    }
}

/// The concrete state a base query symbol denotes.
pub open spec fn base_value(q: QueryPatternState) -> PatternState {
    match q {
        QueryPatternState::Base(s) => s,
        QueryPatternState::AnyValid => PatternState::Green,
        QueryPatternState::Any => PatternState::Green,
    }
}

/// A pattern of base symbols only denotes exactly one signature: the
/// literal symbol-by-symbol mapping.
pub proof fn lemma_expand_all_base(q: Seq<QueryPatternState>)
    requires
        forall|i: int| 0 <= i < q.len() ==> q[i] is Base,
    ensures
        expand_spec(q).len() == 1,
        expand_spec(q)[0] == Seq::new(q.len(), |i: int| base_value(q[i])),
    decreases q.len(),
{
    if q.len() == 0 {
        assert(expand_spec(q)[0] =~= Seq::new(q.len(), |i: int| base_value(q[i])));
    } else {
        let q0 = q.drop_last();
        lemma_expand_all_base(q0);
        let t0 = expand_spec(q0)[0];
        let ps = possible_states_spec(q.last());
        assert(ps.len() == 1);
        assert(ps[0] == base_value(q.last()));
        lemma_extend_all_len(expand_spec(q0), ps);
        lemma_extend_all_contains(expand_spec(q0), ps);
        assert(expand_spec(q).contains(expand_spec(q)[0]));
        assert(expand_spec(q)[0] == t0.push(ps[0]));
        assert(t0.push(base_value(q.last())) =~= Seq::new(q.len(), |i: int| base_value(q[i])));
    }
}

} // verus!
