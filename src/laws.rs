//! General properties of the engine, stated over the models that the
//! functions' contracts use.

use vstd::prelude::*;
use crate::value::Val;
use crate::select::IndexSelect;
use crate::view::{union_over, union_opt, group_of, has_prefix, Join, join_from, join_over, join_branch};
use crate::value::{models, cmp_seq, lemma_cmp_seq, lemma_cmp_seq_trans, lemma_cmp_val};
use crate::view::{first_after, sort_rows, source_rows};
use crate::flow::{Flow, recomputed, indices_below};
use crate::view::{view_output, Union, union_output};
use crate::select::{check_all, select_tuple};

verus! {

/// Inserting a tuple that a relation does not hold and then removing it gives
/// the relation back; inserting a tuple twice is inserting it once. (These are
/// the set operations `Relation::insert` and `Relation::remove` apply to the
/// contents.)
pub proof fn lemma_insert_remove_round_trip(contents: Set<Seq<Val>>, t: Seq<Val>)
    requires
        !contents.contains(t),
    ensures
        contents.insert(t).remove(t) == contents,
        contents.insert(t).insert(t) == contents.insert(t),
{
    assert(contents.insert(t).remove(t) =~= contents);
    assert(contents.insert(t).insert(t) =~= contents.insert(t));
}

/// What a set of row selectors yields together: `None` where one of them
/// fails, else every row that one of them yields.
pub open spec fn union_of_selectors(selects: Set<IndexSelect>, inputs: Seq<Seq<Seq<Val>>>) -> Option<Set<Seq<Val>>> {
    if forall|s: IndexSelect| selects.contains(s) ==> (#[trigger] s.spec_select(inputs)) is Some {
        Some(
            Set::new(
                |t: Seq<Val>|
                    exists|s: IndexSelect|
                        selects.contains(s) && (#[trigger] s.spec_select(inputs))->Some_0.contains(t),
            ),
        )
    } else {
        None
    }
}

/// A union's output depends only on which selectors it has.
pub proof fn lemma_union_over_set(selects: Seq<IndexSelect>, inputs: Seq<Seq<Seq<Val>>>)
    ensures
        union_over(selects, inputs) == union_of_selectors(selects.to_set(), inputs),
    decreases selects.len(),
{
    if selects.len() == 0 {
        assert(selects.to_set() =~= Set::<IndexSelect>::empty());
        assert(union_of_selectors(selects.to_set(), inputs) == Some(Set::<Seq<Val>>::empty())) by {
            assert(Set::new(
                |t: Seq<Val>|
                    exists|s: IndexSelect|
                        selects.to_set().contains(s) && (#[trigger] s.spec_select(inputs))->Some_0.contains(t),
            ) =~= Set::<Seq<Val>>::empty());
        }
    } else {
        let init = selects.drop_last();
        let last = selects.last();
        lemma_union_over_set(init, inputs);
        assert(selects =~= init.push(last));
        init.lemma_push_to_set_commute(last);
        let whole = selects.to_set();
        assert(whole == init.to_set().insert(last));
        if union_of_selectors(whole, inputs) is Some {
            assert(union_of_selectors(init.to_set(), inputs) is Some);
            assert(last.spec_select(inputs) is Some);
            let rows = last.spec_select(inputs)->Some_0;
            let a = union_of_selectors(init.to_set(), inputs)->Some_0;
            assert(union_of_selectors(whole, inputs)->Some_0 =~= a.union(rows.to_set())) by {
                assert forall|t: Seq<Val>| #[trigger] a.union(rows.to_set()).contains(t) implies exists|s: IndexSelect|
                    whole.contains(s) && (#[trigger] s.spec_select(inputs))->Some_0.contains(t) by {
                    if rows.to_set().contains(t) {
                        assert(whole.contains(last));
                    } else {
                        let s = choose|s: IndexSelect|
                            init.to_set().contains(s) && (#[trigger] s.spec_select(inputs))->Some_0.contains(t);
                        assert(whole.contains(s));
                    }
                }
            }
        } else {
            let s = choose|s: IndexSelect| whole.contains(s) && !((#[trigger] s.spec_select(inputs)) is Some);
            if s == last {
            } else {
                assert(init.to_set().contains(s));
            }
        }
    }
}

/// Union output is independent of the order of its selectors: two unions with
/// as many selectors, and the same ones, yield the same.
pub proof fn lemma_union_order_independent(u1: Union, u2: Union, inputs: Seq<Seq<Seq<Val>>>)
    requires
        u1.selects.len() == u2.selects.len(),
        u1.selects@.to_set() == u2.selects@.to_set(),
    ensures
        union_output(u1, inputs) == union_output(u2, inputs),
{
    lemma_union_over_set(u1.selects@, inputs);
    lemma_union_over_set(u2.selects@, inputs);
}

/// The group of `o` is exactly the rows of `inner` that start with `o`, in
/// their order.
pub proof fn lemma_group_members(inner: Seq<Seq<Val>>, o: Seq<Val>)
    ensures
        group_of(inner, o) == inner.filter(|t: Seq<Val>| has_prefix(t, o)),
    decreases inner.len(),
{
    reveal(Seq::filter);
    if inner.len() > 0 {
        lemma_group_members(inner.drop_last(), o);
    }
}

/// A row belongs to at most one group: the groups of two different outer rows
/// of the same arity share no row.
pub proof fn lemma_groups_disjoint(inner: Seq<Seq<Val>>, o1: Seq<Val>, o2: Seq<Val>, t: Seq<Val>)
    requires
        o1.len() == o2.len(),
        o1 != o2,
    ensures
        !(group_of(inner, o1).contains(t) && group_of(inner, o2).contains(t)),
{
    lemma_group_members(inner, o1);
    lemma_group_members(inner, o2);
    let f1 = |x: Seq<Val>| has_prefix(x, o1);
    let f2 = |x: Seq<Val>| has_prefix(x, o2);
    if group_of(inner, o1).contains(t) && group_of(inner, o2).contains(t) {
        inner.filter_lemma(f1);
        inner.filter_lemma(f2);
        let i = choose|i: int| 0 <= i < inner.filter(f1).len() && inner.filter(f1)[i] == t;
        let k = choose|k: int| 0 <= k < inner.filter(f2).len() && inner.filter(f2)[k] == t;
        assert(f1(inner.filter(f1)[i]));
        assert(f2(inner.filter(f2)[k]));
        assert(t.take(o1.len() as int) == o1);
        assert(t.take(o2.len() as int) == o2);
    }
}

/// Every combination of rows, one per step from `ix` on, that the join's
/// sources offer with `state` bound, no constraint applied: the unpruned
/// enumeration. `None` where a source fails on some combination.
pub open spec fn combinations(j: Join, inputs: Seq<Seq<Seq<Val>>>, ix: int, state: Seq<Val>) -> Option<Seq<Seq<Seq<Val>>>>
    decreases j.sources.len() - ix, 1nat, 0nat,
{
    if ix < 0 || ix >= j.sources.len() {
        Some(seq![Seq::empty()])
    } else {
        match source_rows(j.sources@[ix], inputs, state) {
            None => None,
            Some(rows) => combinations_over(j, inputs, ix, state, rows),
        }
    }
}

/// The combinations that start with one of `rows` at step `ix`.
pub open spec fn combinations_over(
    j: Join,
    inputs: Seq<Seq<Seq<Val>>>,
    ix: int,
    state: Seq<Val>,
    rows: Seq<Seq<Val>>,
) -> Option<Seq<Seq<Seq<Val>>>>
    decreases j.sources.len() - ix, 0nat, rows.len(),
{
    if rows.len() == 0 || ix < 0 || ix >= j.sources.len() {
        Some(Seq::empty())
    } else {
        match (
            combinations_over(j, inputs, ix, state, rows.drop_last()),
            combinations(j, inputs, ix + 1, state + rows.last()),
        ) {
            (Some(a), Some(b)) => Some(a + prepend(rows.last(), b)),
            _ => None,
        }
    }
}

pub open spec fn prepend(r: Seq<Val>, ps: Seq<Seq<Seq<Val>>>) -> Seq<Seq<Seq<Val>>> {
    ps.map_values(|p: Seq<Seq<Val>>| seq![r] + p)
}

/// One combination filtered after the fact: each step's constraints are
/// checked, in order, against the state bound up to that step; the output
/// tuple is built where all hold.
pub open spec fn filtered(j: Join, ix: int, state: Seq<Val>, combo: Seq<Seq<Val>>) -> Option<Set<Seq<Val>>>
    decreases j.sources.len() - ix,
{
    if ix < 0 || ix >= j.sources.len() {
        match select_tuple(j.select.mapping@, models(j.constants@), state) {
            Some(t) => Some(set![t]),
            None => None,
        }
    } else if combo.len() == 0 || ix >= j.constraints.len() {
        None
    } else {
        match check_all(j.constraints@[ix]@, state + combo[0], 0) {
            None => None,
            Some(false) => Some(Set::empty()),
            Some(true) => filtered(j, ix + 1, state + combo[0], combo.drop_first()),
        }
    }
}

/// The filtered outputs of all `combos`, together.
pub open spec fn filtered_all(j: Join, ix: int, state: Seq<Val>, combos: Seq<Seq<Seq<Val>>>) -> Option<Set<Seq<Val>>>
    decreases combos.len(),
{
    if combos.len() == 0 {
        Some(Set::empty())
    } else {
        union_opt(filtered_all(j, ix, state, combos.drop_last()), filtered(j, ix, state, combos.last()))
    }
}

proof fn lemma_union_opt_assoc(a: Option<Set<Seq<Val>>>, b: Option<Set<Seq<Val>>>, c: Option<Set<Seq<Val>>>)
    ensures
        union_opt(union_opt(a, b), c) == union_opt(a, union_opt(b, c)),
{
    if a is Some && b is Some && c is Some {
        assert(a->Some_0.union(b->Some_0).union(c->Some_0) =~= a->Some_0.union(b->Some_0.union(c->Some_0)));
    }
}

proof fn lemma_filtered_all_concat(j: Join, ix: int, state: Seq<Val>, a: Seq<Seq<Seq<Val>>>, b: Seq<Seq<Seq<Val>>>)
    ensures
        filtered_all(j, ix, state, a + b) == union_opt(filtered_all(j, ix, state, a), filtered_all(j, ix, state, b)),
    decreases b.len(),
{
    if b.len() == 0 {
        assert(a + b =~= a);
        if filtered_all(j, ix, state, a) is Some {
            assert(filtered_all(j, ix, state, a)->Some_0.union(Set::empty()) =~= filtered_all(j, ix, state, a)->Some_0);
        }
    } else {
        assert((a + b).drop_last() =~= a + b.drop_last());
        assert((a + b).last() == b.last());
        lemma_filtered_all_concat(j, ix, state, a, b.drop_last());
        lemma_union_opt_assoc(
            filtered_all(j, ix, state, a),
            filtered_all(j, ix, state, b.drop_last()),
            filtered(j, ix, state, b.last()),
        );
    }
}

/// Over combinations that all start with `r`, filtering at step `ix` is
/// filtering at step `ix + 1` with `r` bound, once `r` passes its checks.
proof fn lemma_filtered_prepend(j: Join, ix: int, state: Seq<Val>, r: Seq<Val>, ps: Seq<Seq<Seq<Val>>>)
    requires
        0 <= ix < j.sources.len(),
        ix < j.constraints.len(),
    ensures
        check_all(j.constraints@[ix]@, state + r, 0) == Some(true) ==> filtered_all(j, ix, state, prepend(r, ps))
            == filtered_all(j, ix + 1, state + r, ps),
        check_all(j.constraints@[ix]@, state + r, 0) == Some(false) ==> filtered_all(j, ix, state, prepend(r, ps))
            == Some(Set::<Seq<Val>>::empty()),
        check_all(j.constraints@[ix]@, state + r, 0) is None && ps.len() > 0 ==> filtered_all(
            j,
            ix,
            state,
            prepend(r, ps),
        ) is None,
    decreases ps.len(),
{
    if ps.len() > 0 {
        assert(prepend(r, ps).drop_last() =~= prepend(r, ps.drop_last()));
        lemma_filtered_prepend(j, ix, state, r, ps.drop_last());
        let c = prepend(r, ps).last();
        assert(c == seq![r] + ps.last());
        assert(c[0] == r);
        assert(c.drop_first() =~= ps.last());
        if check_all(j.constraints@[ix]@, state + r, 0) == Some(false) {
            assert(Set::<Seq<Val>>::empty().union(Set::empty()) =~= Set::<Seq<Val>>::empty());
        }
        if check_all(j.constraints@[ix]@, state + r, 0) is None && ps.len() > 1 {
            assert(prepend(r, ps.drop_last()).len() > 0);
        }
    }
}

/// The join at step `ix`, against its unpruned enumeration filtered after the
/// fact.
proof fn lemma_join_filtered(j: Join, inputs: Seq<Seq<Seq<Val>>>, ix: int, state: Seq<Val>)
    requires
        0 <= ix <= j.sources.len(),
        combinations(j, inputs, ix, state) is Some,
    ensures
        join_from(j, inputs, ix, state) is Some ==> filtered_all(j, ix, state, combinations(j, inputs, ix, state)->Some_0)
            == join_from(j, inputs, ix, state),
        filtered_all(j, ix, state, combinations(j, inputs, ix, state)->Some_0) is None ==> join_from(
            j,
            inputs,
            ix,
            state,
        ) is None,
    decreases j.sources.len() - ix, 1nat, 0nat,
{
    if ix == j.sources.len() {
        let out = join_from(j, inputs, ix, state);
        assert(combinations(j, inputs, ix, state)->Some_0.drop_last() =~= Seq::<Seq<Seq<Val>>>::empty());
        if out is Some {
            assert(Set::<Seq<Val>>::empty().union(out->Some_0) =~= out->Some_0);
        }
    } else {
        let rows = source_rows(j.sources@[ix], inputs, state)->Some_0;
        lemma_join_over_filtered(j, inputs, ix, state, rows);
    }
}

proof fn lemma_join_over_filtered(j: Join, inputs: Seq<Seq<Seq<Val>>>, ix: int, state: Seq<Val>, rows: Seq<Seq<Val>>)
    requires
        0 <= ix < j.sources.len(),
        combinations_over(j, inputs, ix, state, rows) is Some,
    ensures
        join_over(j, inputs, ix, state, rows) is Some ==> filtered_all(
            j,
            ix,
            state,
            combinations_over(j, inputs, ix, state, rows)->Some_0,
        ) == join_over(j, inputs, ix, state, rows),
        filtered_all(j, ix, state, combinations_over(j, inputs, ix, state, rows)->Some_0) is None ==> join_over(
            j,
            inputs,
            ix,
            state,
            rows,
        ) is None,
    decreases j.sources.len() - ix, 0nat, rows.len(),
{
    if rows.len() > 0 {
        let init = rows.drop_last();
        let r = rows.last();
        let head = combinations_over(j, inputs, ix, state, init)->Some_0;
        let rest = combinations(j, inputs, ix + 1, state + r)->Some_0;
        lemma_join_over_filtered(j, inputs, ix, state, init);
        lemma_filtered_all_concat(j, ix, state, head, prepend(r, rest));
        let branch = join_branch(j, inputs, ix, state, r);
        let fb = filtered_all(j, ix, state, prepend(r, rest));
        if ix < j.constraints.len() {
            lemma_filtered_prepend(j, ix, state, r, rest);
            lemma_join_filtered(j, inputs, ix + 1, state + r);
            if check_all(j.constraints@[ix]@, state + r, 0) is None && rest.len() == 0 {
                assert(branch is None);
            }
        } else {
            assert(branch is None);
            if rest.len() > 0 {
                assert(prepend(r, rest).drop_last() =~= prepend(r, rest.drop_last()));
            }
        }
        assert(branch is Some ==> fb == branch);
        assert(fb is None ==> branch is None) by {
            if ix >= j.constraints.len() {
            }
        }
    }
}

/// Pruning inline is filtering after the fact: for a join whose sources offer
/// rows on every combination of the unpruned enumeration (relations always
/// do; a primitive must not fail there), where the join computes without
/// error, its output is that of filtering every combination by the
/// constraints, each step's constraints checked against the state bound up to
/// that step; and where filtering after the fact meets an error, so does the
/// join.
pub proof fn lemma_join_pruning_equivalence(j: Join, inputs: Seq<Seq<Seq<Val>>>)
    requires
        combinations(j, inputs, 0, Seq::empty()) is Some,
    ensures
        join_from(j, inputs, 0, Seq::empty()) is Some ==> filtered_all(
            j,
            0,
            Seq::empty(),
            combinations(j, inputs, 0, Seq::empty())->Some_0,
        ) == join_from(j, inputs, 0, Seq::empty()),
        filtered_all(j, 0, Seq::empty(), combinations(j, inputs, 0, Seq::empty())->Some_0) is None ==> join_from(
            j,
            inputs,
            0,
            Seq::empty(),
        ) is None,
{
    lemma_join_filtered(j, inputs, 0, Seq::empty());
}

/// Recomputing is idempotent: once node `n` has been recomputed, recomputing
/// it again with no input changed in between (`n` does not read its own
/// output) leaves every output and the change log as they are.
pub proof fn lemma_recompute_idempotent(a: Flow, b: Flow, c: Flow, n: int)
    requires
        a.wf(),
        0 <= n < a.nodes_view().len(),
        !a.nodes_view()[n].upstream@.contains(n as usize),
        recomputed(a, b, n),
        recomputed(b, c, n),
    ensures
        c.rows_view() == b.rows_view(),
        c.changes_view() == b.changes_view(),
{
    let node = a.nodes_view()[n];
    let up = node.upstream@;
    assert(indices_below(up, a.nodes_view().len() as int));
    assert forall|k: int| 0 <= k < up.len() implies #[trigger] b.rows_view()[up[k] as int] == a.rows_view()[up[k] as int] by {
        if up[k] as int == n {
            assert(up.contains(n as usize));
        }
    }
    assert(b.upstream_rows(n) =~= a.upstream_rows(n));
    if !(node.view is Table) {
        let s = view_output(node.view, a.upstream_rows(n))->Some_0;
        assert(b.outputs_view()[n] == s);
    }
}

/// Every row of `s` comes no later than every row after it.
pub open spec fn sorted(s: Seq<Seq<Val>>) -> bool {
    forall|i: int, j: int| 0 <= i < j < s.len() ==> cmp_seq(#[trigger] s[i], #[trigger] s[j]) <= 0
}

proof fn lemma_first_after(s: Seq<Seq<Val>>, t: Seq<Val>, i: int)
    requires
        0 <= i <= s.len(),
    ensures
        i <= first_after(s, t, i) <= s.len(),
        forall|k: int| i <= k < first_after(s, t, i) ==> cmp_seq(#[trigger] s[k], t) <= 0,
        first_after(s, t, i) < s.len() ==> cmp_seq(s[first_after(s, t, i)], t) > 0,
    decreases s.len() - i,
{
    if i < s.len() && cmp_seq(s[i], t) <= 0 {
        lemma_first_after(s, t, i + 1);
    }
}

/// Sorting yields sorted rows.
pub proof fn lemma_sort_rows_sorted(s: Seq<Seq<Val>>)
    ensures
        sorted(sort_rows(s)),
        sort_rows(s).len() == s.len(),
    decreases s.len(),
{
    if s.len() > 0 {
        let r = sort_rows(s.drop_last());
        let t = s.last();
        lemma_sort_rows_sorted(s.drop_last());
        lemma_first_after(r, t, 0);
        let k = first_after(r, t, 0);
        let out = r.insert(k, t);
        assert(out == sort_rows(s));
        assert forall|i: int, j: int| 0 <= i < j < out.len() implies cmp_seq(#[trigger] out[i], #[trigger] out[j]) <= 0 by {
            if i < k && j < k {
                assert(out[i] == r[i] && out[j] == r[j]);
            } else if i < k && j == k {
                assert(out[i] == r[i]);
            } else if i < k && j > k {
                assert(out[i] == r[i] && out[j] == r[j - 1]);
                if i < j - 1 {
                    assert(cmp_seq(r[i], r[j - 1]) <= 0);
                }
            } else if i == k {
                assert(out[j] == r[j - 1]);
                lemma_cmp_seq(r[k], t);
                if j - 1 > k {
                    assert(cmp_seq(r[k], r[j - 1]) <= 0);
                    lemma_cmp_seq_trans(t, r[k], r[j - 1]);
                }
            } else {
                assert(out[i] == r[i - 1] && out[j] == r[j - 1]);
            }
        }
    }
}

/// Sorting keeps every row, as often as it occurs.
pub proof fn lemma_sort_rows_permutes(s: Seq<Seq<Val>>)
    ensures
        sort_rows(s).to_multiset() == s.to_multiset(),
    decreases s.len(),
{
    if s.len() > 0 {
        let init = s.drop_last();
        let r = sort_rows(init);
        lemma_sort_rows_permutes(init);
        lemma_sort_rows_sorted(init);
        lemma_first_after(r, s.last(), 0);
        vstd::seq_lib::to_multiset_insert(r, first_after(r, s.last(), 0), s.last());
        assert(s =~= init.push(s.last()));
        vstd::seq_lib::to_multiset_build(init, s.last());
    }
}

/// Between two rows that start with `o`, every row starts with `o` too.
proof fn lemma_prefix_between(a: Seq<Val>, b: Seq<Val>, c: Seq<Val>, o: Seq<Val>)
    requires
        cmp_seq(a, b) <= 0,
        cmp_seq(b, c) <= 0,
        has_prefix(a, o),
        has_prefix(c, o),
    ensures
        has_prefix(b, o),
    decreases o.len(),
{
    if o.len() == 0 {
        assert(b.take(0) =~= o);
    } else {
        assert(a[0] == o[0]) by {
            assert(a.take(o.len() as int)[0] == o[0]);
        }
        assert(c[0] == o[0]) by {
            assert(c.take(o.len() as int)[0] == o[0]);
        }
        assert(b.len() > 0);
        lemma_cmp_val(a[0], b[0]);
        lemma_cmp_val(b[0], c[0]);
        assert(b[0] == o[0]);
        let o1 = o.drop_first();
        assert(a.drop_first().take(o1.len() as int) =~= o1) by {
            assert forall|k: int| 0 <= k < o1.len() implies a.drop_first()[k] == o1[k] by {
                assert(a.take(o.len() as int)[k + 1] == o[k + 1]);
            }
        }
        assert(c.drop_first().take(o1.len() as int) =~= o1) by {
            assert forall|k: int| 0 <= k < o1.len() implies c.drop_first()[k] == o1[k] by {
                assert(c.take(o.len() as int)[k + 1] == o[k + 1]);
            }
        }
        lemma_prefix_between(a.drop_first(), b.drop_first(), c.drop_first(), o1);
        assert(b.take(o.len() as int) =~= o) by {
            assert forall|k: int| 0 <= k < o.len() implies b.take(o.len() as int)[k] == o[k] by {
                if k > 0 {
                    assert(b.drop_first().take(o1.len() as int)[k - 1] == o1[k - 1]);
                }
            }
        }
    }
}

/// Groups are contiguous runs: in the sorted inner rows, every row that lies
/// between two members of the group of `o` is a member too. (With
/// `lemma_group_members`, the group is exactly that run, in order.)
pub proof fn lemma_group_is_contiguous(inner: Seq<Seq<Val>>, o: Seq<Val>, i: int, j: int, k: int)
    requires
        0 <= i < j < k < inner.len(),
        has_prefix(sort_rows(inner)[i], o),
        has_prefix(sort_rows(inner)[k], o),
    ensures
        has_prefix(sort_rows(inner)[j], o),
{
    let s = sort_rows(inner);
    lemma_sort_rows_sorted(inner);
    assert(cmp_seq(s[i], s[j]) <= 0);
    assert(cmp_seq(s[j], s[k]) <= 0);
    lemma_prefix_between(s[i], s[j], s[k], o);
}

} // verus!
