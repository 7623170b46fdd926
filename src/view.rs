//! The four kinds of views and how each computes its output.

use vstd::prelude::*;
use vstd::view::View as _;
use crate::value::{Val, Value, model, models, concat_tuples, cmp_seq, compare_tuples, copy_tuple, values_equal, lemma_models};
use crate::relation::{Relation, input_rows, rows_of};
use crate::select::{ShapeError, Constraint, ViewSelect, IndexSelect, Reference, check_all, satisfies_all, select_tuple, resolve, resolve_ref};
use crate::primitive::{Primitive, join_rows, reduce};
use crate::laws::{sorted, lemma_sort_rows_sorted, lemma_sort_rows_permutes};

verus! {

broadcast use crate::value::group_model_lemmas;

/// Both sets, or `None` where either is.
pub open spec fn union_opt(a: Option<Set<Seq<Val>>>, b: Option<Set<Seq<Val>>>) -> Option<Set<Seq<Val>>> {
    match (a, b) {
        (Some(x), Some(y)) => Some(x.union(y)),
        _ => None,
    }
}

/// A base relation, written from outside and never recomputed.
#[derive(Debug)]
pub struct Table {
    pub insert: Option<IndexSelect>,
    pub remove: Option<IndexSelect>,
}

/// The set union of what each row selector yields.
#[derive(Debug)]
pub struct Union {
    pub selects: Vec<IndexSelect>,
}

/// Where a join step takes its candidate rows from.
#[derive(Debug)]
pub enum JoinSource {
    Relation { input: usize },
    Primitive { primitive: Primitive, arguments: Vec<usize> },
}

/// A join: for each source in order, each candidate row is appended to the
/// state and the step's constraints are checked at once; a full state is
/// turned into an output tuple by `select`.
#[derive(Debug)]
pub struct Join {
    pub constants: Vec<Value>,
    pub sources: Vec<JoinSource>,
    pub constraints: Vec<Vec<Constraint>>,
    pub select: ViewSelect,
}

/// The candidate rows of a source in the given state.
pub open spec fn source_rows(src: JoinSource, inputs: Seq<Seq<Seq<Val>>>, state: Seq<Val>) -> Option<Seq<Seq<Val>>> {
    match src {
        JoinSource::Relation { input } => if input < inputs.len() {
            Some(inputs[input as int])
        } else {
            None
        },
        JoinSource::Primitive { primitive, arguments } => join_rows(primitive, arguments@, state),
    }
}

/// What a join yields from step `ix` on, with `state` bound so far.
pub open spec fn join_from(j: Join, inputs: Seq<Seq<Seq<Val>>>, ix: int, state: Seq<Val>) -> Option<Set<Seq<Val>>>
    decreases j.sources.len() - ix, 2nat,
{
    if ix < 0 || ix >= j.sources.len() {
        match select_tuple(j.select.mapping@, models(j.constants@), state) {
            Some(t) => Some(set![t]),
            None => None,
        }
    } else {
        match source_rows(j.sources@[ix], inputs, state) {
            None => None,
            Some(rows) => join_over(j, inputs, ix, state, rows),
        }
    }
}

/// What a join yields at step `ix` over the candidate rows `rows`.
pub open spec fn join_over(
    j: Join,
    inputs: Seq<Seq<Seq<Val>>>,
    ix: int,
    state: Seq<Val>,
    rows: Seq<Seq<Val>>,
) -> Option<Set<Seq<Val>>>
    decreases j.sources.len() - ix, 1nat, rows.len(),
{
    if rows.len() == 0 {
        Some(Set::empty())
    } else {
        union_opt(join_over(j, inputs, ix, state, rows.drop_last()), join_branch(j, inputs, ix, state, rows.last()))
    }
}

/// What a join yields at step `ix` once `row` is appended to the state: nothing
/// where a constraint of the step fails.
pub open spec fn join_branch(j: Join, inputs: Seq<Seq<Seq<Val>>>, ix: int, state: Seq<Val>, row: Seq<Val>) -> Option<Set<Seq<Val>>>
    decreases j.sources.len() - ix, 0nat, 0nat,
{
    if ix < 0 || ix >= j.sources.len() || ix >= j.constraints.len() {
        None
    } else {
        match check_all(j.constraints@[ix]@, state + row, 0) {
            None => None,
            Some(false) => Some(Set::empty()),
            Some(true) => join_from(j, inputs, ix + 1, state + row),
        }
    }
}

proof fn lemma_join_over_step(j: Join, inputs: Seq<Seq<Seq<Val>>>, ix: int, state: Seq<Val>, rows: Seq<Seq<Val>>, k: int)
    requires
        0 <= k < rows.len(),
    ensures
        join_over(j, inputs, ix, state, rows.take(k + 1)) == union_opt(
            join_over(j, inputs, ix, state, rows.take(k)),
            join_branch(j, inputs, ix, state, rows[k]),
        ),
{
    assert(rows.take(k + 1).drop_last() =~= rows.take(k));
}

proof fn lemma_join_over_none(j: Join, inputs: Seq<Seq<Seq<Val>>>, ix: int, state: Seq<Val>, rows: Seq<Seq<Val>>, k: int)
    requires
        0 <= k <= rows.len(),
        join_over(j, inputs, ix, state, rows.take(k)) is None,
    ensures
        join_over(j, inputs, ix, state, rows) is None,
    decreases rows.len() - k,
{
    if k == rows.len() {
        assert(rows.take(k) =~= rows);
    } else {
        lemma_join_over_step(j, inputs, ix, state, rows, k);
        lemma_join_over_none(j, inputs, ix, state, rows, k + 1);
    }
}

fn join_step(join: &Join, ix: usize, inputs: &[&Relation], state: &Vec<Value>, output: &mut Relation) -> (r: Result<(), ShapeError>)
    requires
        old(output).wf(),
        ix <= join.sources.len(),
    ensures
        final(output).wf(),
        match join_from(*join, input_rows(inputs@), ix as int, models(state@)) {
            Some(s) => r is Ok && final(output).contents() == old(output).contents().union(s),
            None => r is Err,
        },
    decreases join.sources.len() - ix, 2nat,
{
    if ix == join.sources.len() {
        let t = join.select.select(&join.constants, state);
        match t {
            Err(e) => Err(e),
            Ok(t) => {
                let ghost m = models(t@);
                output.insert(t);
                assert(output.contents() =~= old(output).contents().union(set![m]));
                Ok(())
            },
        }
    } else {
        match &join.sources[ix] {
            JoinSource::Relation { input } => {
                if *input >= inputs.len() {
                    return Err(ShapeError);
                }
                let rel: &Relation = inputs[*input];
                assert(input_rows(inputs@)[*input as int] == rel.rows());
                join_rows_loop(join, ix, inputs, state, rel.tuples(), output)
            },
            JoinSource::Primitive { primitive, arguments } => {
                let rows = primitive.eval_from_join(arguments, state);
                match rows {
                    Err(e) => Err(e),
                    Ok(rows) => join_rows_loop(join, ix, inputs, state, &rows, output),
                }
            },
        }
    }
}

fn join_rows_loop(
    join: &Join,
    ix: usize,
    inputs: &[&Relation],
    state: &Vec<Value>,
    rows: &Vec<Vec<Value>>,
    output: &mut Relation,
) -> (r: Result<(), ShapeError>)
    requires
        old(output).wf(),
        ix < join.sources.len(),
    ensures
        final(output).wf(),
        match join_over(*join, input_rows(inputs@), ix as int, models(state@), rows_of(rows@)) {
            Some(s) => r is Ok && final(output).contents() == old(output).contents().union(s),
            None => r is Err,
        },
    decreases join.sources.len() - ix, 1nat,
{
    let ghost ins = input_rows(inputs@);
    let ghost st = models(state@);
    let ghost rs = rows_of(rows@);
    let ghost mut acc: Set<Seq<Val>> = Set::empty();
    let mut k: usize = 0;
    assert(rs.take(0) =~= Seq::<Seq<Val>>::empty());
    assert(output.contents() =~= old(output).contents().union(acc));
    while k < rows.len()
        invariant
            k <= rows.len(),
            ix < join.sources.len(),
            ins == input_rows(inputs@),
            st == models(state@),
            rs == rows_of(rows@),
            output.wf(),
            join_over(*join, ins, ix as int, st, rs.take(k as int)) == Some(acc),
            output.contents() == old(output).contents().union(acc),
        decreases rows.len() - k,
    {
        proof {
            lemma_join_over_step(*join, ins, ix as int, st, rs, k as int);
        }
        let b = join_branch_exec(join, ix, inputs, state, &rows[k], output);
        match b {
            Err(e) => {
                proof {
                    lemma_join_over_none(*join, ins, ix as int, st, rs, k + 1);
                }
                return Err(e);
            },
            Ok(()) => {},
        }
        proof {
            acc = acc.union(join_branch(*join, ins, ix as int, st, rs[k as int])->Some_0);
            assert(output.contents() =~= old(output).contents().union(acc));
        }
        k = k + 1;
    }
    assert(rs.take(rows.len() as int) =~= rs);
    Ok(())
}

fn join_branch_exec(
    join: &Join,
    ix: usize,
    inputs: &[&Relation],
    state: &Vec<Value>,
    row: &Vec<Value>,
    output: &mut Relation,
) -> (r: Result<(), ShapeError>)
    requires
        old(output).wf(),
        ix < join.sources.len(),
    ensures
        final(output).wf(),
        match join_branch(*join, input_rows(inputs@), ix as int, models(state@), models(row@)) {
            Some(s) => r is Ok && final(output).contents() == old(output).contents().union(s),
            None => r is Err,
        },
    decreases join.sources.len() - ix, 0nat,
{
    if ix >= join.constraints.len() {
        return Err(ShapeError);
    }
    let next = concat_tuples(state, row);
    match satisfies_all(&join.constraints[ix], &next) {
        Err(e) => Err(e),
        Ok(false) => {
            assert(output.contents() =~= old(output).contents().union(Set::empty()));
            Ok(())
        },
        Ok(true) => join_step(join, ix + 1, inputs, &next, output),
    }
}

/// A reducer: a primitive and its argument columns.
#[derive(Debug)]
pub struct Reducer {
    pub primitive: Primitive,
    pub arguments: Vec<usize>,
}

/// An aggregate: the sorted `inner` rows are grouped under each `outer` row
/// that is a prefix of them; each group, cut to its window, is reduced, and
/// `select` builds the output from the outer row, (the windowed rows, where
/// `selects_inner`,) and the reduced values.
#[derive(Debug)]
pub struct Aggregate {
    pub constants: Vec<Value>,
    pub outer: IndexSelect,
    pub inner: IndexSelect,
    pub limit_from: Option<Reference>,
    pub limit_to: Option<Reference>,
    pub reducers: Vec<Reducer>,
    pub selects_inner: bool,
    pub select: ViewSelect,
}

/// The first position of `s`, from `i` on, whose row comes after `t`.
pub open spec fn first_after(s: Seq<Seq<Val>>, t: Seq<Val>, i: int) -> int
    decreases s.len() - i,
{
    if i < 0 || i >= s.len() {
        s.len() as int
    } else if cmp_seq(s[i], t) > 0 {
        i
    } else {
        first_after(s, t, i + 1)
    }
}

/// `s` sorted by inserting its rows one by one, each after the rows that do
/// not come after it.
pub open spec fn sort_rows(s: Seq<Seq<Val>>) -> Seq<Seq<Val>>
    decreases s.len(),
{
    if s.len() == 0 {
        s
    } else {
        let r = sort_rows(s.drop_last());
        r.insert(first_after(r, s.last(), 0), s.last())
    }
}

/// Whether `o` is a prefix of `t`.
pub open spec fn has_prefix(t: Seq<Val>, o: Seq<Val>) -> bool {
    o.len() <= t.len() && t.take(o.len() as int) == o
}

/// The rows of `inner` that start with `o`, in their order.
pub open spec fn group_of(inner: Seq<Seq<Val>>, o: Seq<Val>) -> Seq<Seq<Val>>
    decreases inner.len(),
{
    if inner.len() == 0 {
        inner
    } else if has_prefix(inner.last(), o) {
        group_of(inner.drop_last(), o).push(inner.last())
    } else {
        group_of(inner.drop_last(), o)
    }
}

pub open spec fn clamp(x: int, lo: int, hi: int) -> int {
    if x < lo {
        lo
    } else if x > hi {
        hi
    } else {
        x
    }
}

/// A window bound: `default` where there is none, else the number it refers to.
pub open spec fn bound_value(bound: Option<Reference>, constants: Seq<Val>, outer: Seq<Val>, default: int) -> Option<int> {
    match bound {
        None => Some(default),
        Some(r) => match resolve(r, constants, outer) {
            Some(Val::Number(n)) => Some(n),
            _ => None,
        },
    }
}

/// The values the reducers give over `window`, in order.
pub open spec fn reduce_all(reducers: Seq<Reducer>, window: Seq<Seq<Val>>) -> Option<Seq<Val>>
    decreases reducers.len(),
{
    if reducers.len() == 0 {
        Some(Seq::empty())
    } else {
        match (reduce_all(reducers.drop_last(), window), reduce(reducers.last().primitive, reducers.last().arguments@, window)) {
            (Some(vs), Some(v)) => Some(vs.push(v)),
            _ => None,
        }
    }
}

/// The tuple `select` builds from `state`, as a set of one.
pub open spec fn select_one(a: Aggregate, state: Seq<Val>) -> Option<Set<Seq<Val>>> {
    match select_tuple(a.select.mapping@, models(a.constants@), state) {
        Some(t) => Some(set![t]),
        None => None,
    }
}

/// One output for each row of the window.
pub open spec fn window_outputs(a: Aggregate, o: Seq<Val>, window: Seq<Seq<Val>>, reduced: Seq<Val>) -> Option<Set<Seq<Val>>>
    decreases window.len(),
{
    if window.len() == 0 {
        Some(Set::empty())
    } else {
        union_opt(window_outputs(a, o, window.drop_last(), reduced), select_one(a, o + window.last() + reduced))
    }
}

/// The window of `group`: the rows from `from` to `to`, both clamped into the
/// group and `from <= to`.
pub open spec fn window_of(group: Seq<Seq<Val>>, from: int, to: int) -> Seq<Seq<Val>> {
    let f = clamp(from, 0, group.len() as int);
    let t = clamp(to, f, group.len() as int);
    group.subrange(f, t)
}

/// What the group of outer row `o` yields.
pub open spec fn group_output(a: Aggregate, o: Seq<Val>, sorted: Seq<Seq<Val>>) -> Option<Set<Seq<Val>>> {
    let group = group_of(sorted, o);
    let cs = models(a.constants@);
    match (bound_value(a.limit_from, cs, o, 0), bound_value(a.limit_to, cs, o, group.len() as int)) {
        (Some(from), Some(to)) => {
            let window = window_of(group, from, to);
            match reduce_all(a.reducers@, window) {
                None => None,
                Some(reduced) => if a.selects_inner {
                    window_outputs(a, o, window, reduced)
                } else {
                    select_one(a, o + reduced)
                },
            }
        },
        _ => None,
    }
}

/// What all groups yield together.
pub open spec fn groups_output(a: Aggregate, outers: Seq<Seq<Val>>, sorted: Seq<Seq<Val>>) -> Option<Set<Seq<Val>>>
    decreases outers.len(),
{
    if outers.len() == 0 {
        Some(Set::empty())
    } else {
        union_opt(groups_output(a, outers.drop_last(), sorted), group_output(a, outers.last(), sorted))
    }
}

/// What an aggregate yields over `inputs`.
pub open spec fn aggregate_output(a: Aggregate, inputs: Seq<Seq<Seq<Val>>>) -> Option<Set<Seq<Val>>> {
    match (a.outer.spec_select(inputs), a.inner.spec_select(inputs)) {
        (Some(outers), Some(inner)) => groups_output(a, outers, sort_rows(inner)),
        _ => None,
    }
}

/// `rows` in ascending order: a sorted rearrangement of the same rows.
pub fn sort_tuples(rows: &Vec<Vec<Value>>) -> (r: Vec<Vec<Value>>)
    ensures
        rows_of(r@) == sort_rows(rows_of(rows@)),
        sorted(rows_of(r@)),
        rows_of(r@).to_multiset() == rows_of(rows@).to_multiset(),
{
    proof {
        lemma_sort_rows_sorted(rows_of(rows@));
        lemma_sort_rows_permutes(rows_of(rows@));
    }
    let ghost s = rows_of(rows@);
    let mut r: Vec<Vec<Value>> = Vec::new();
    let mut k: usize = 0;
    assert(s.take(0) =~= Seq::<Seq<Val>>::empty());
    assert(rows_of(r@) =~= Seq::<Seq<Val>>::empty());
    while k < rows.len()
        invariant
            k <= rows.len(),
            s == rows_of(rows@),
            rows_of(r@) == sort_rows(s.take(k as int)),
        decreases rows.len() - k,
    {
        let t = &rows[k];
        let ghost sr = rows_of(r@);
        let mut j: usize = 0;
        while j < r.len()
            invariant
                k < rows.len(),
                s == rows_of(rows@),
                j <= r.len(),
                sr == rows_of(r@),
                models(t@) == s[k as int],
                first_after(sr, s[k as int], 0) == first_after(sr, s[k as int], j as int),
            ensures
                j <= r.len(),
                j == first_after(sr, s[k as int], 0),
            decreases r.len() - j,
        {
            if compare_tuples(&r[j], t) > 0 {
                assert(sr[j as int] == models(r@[j as int]@));
                break;
            }
            j = j + 1;
        }
        r.insert(j, copy_tuple(t));
        assert(s.take(k + 1).drop_last() =~= s.take(k as int));
        assert(s.take(k + 1).last() == s[k as int]);
        assert(rows_of(r@) =~= sr.insert(j as int, s[k as int]));
        k = k + 1;
    }
    assert(s.take(rows.len() as int) =~= s);
    r
}

/// Whether `o` is a prefix of `t`.
pub fn starts_with(t: &Vec<Value>, o: &Vec<Value>) -> (r: bool)
    ensures
        r == has_prefix(models(t@), models(o@)),
{
    proof {
        lemma_models(t@);
        lemma_models(o@);
    }
    if o.len() > t.len() {
        return false;
    }
    let mut i: usize = 0;
    while i < o.len()
        invariant
            i <= o.len() <= t.len(),
            models(t@).len() == t.len(),
            models(o@).len() == o.len(),
            forall|k: int| 0 <= k < i ==> #[trigger] models(t@)[k] == models(o@)[k],
        decreases o.len() - i,
    {
        if !values_equal(&t[i], &o[i]) {
            assert(models(t@).take(o.len() as int)[i as int] != models(o@)[i as int]);
            return false;
        }
        i = i + 1;
    }
    assert(models(t@).take(o.len() as int) =~= models(o@));
    true
}

/// The rows of `sorted` that start with `o`.
fn collect_group(sorted: &Vec<Vec<Value>>, o: &Vec<Value>) -> (g: Vec<Vec<Value>>)
    ensures
        rows_of(g@) == group_of(rows_of(sorted@), models(o@)),
{
    let ghost s = rows_of(sorted@);
    let mut g: Vec<Vec<Value>> = Vec::new();
    let mut k: usize = 0;
    assert(s.take(0) =~= Seq::<Seq<Val>>::empty());
    assert(rows_of(g@) =~= Seq::<Seq<Val>>::empty());
    while k < sorted.len()
        invariant
            k <= sorted.len(),
            s == rows_of(sorted@),
            rows_of(g@) == group_of(s.take(k as int), models(o@)),
        decreases sorted.len() - k,
    {
        assert(s.take(k + 1).drop_last() =~= s.take(k as int));
        assert(s.take(k + 1).last() == s[k as int]);
        if starts_with(&sorted[k], o) {
            let ghost before = rows_of(g@);
            g.push(copy_tuple(&sorted[k]));
            assert(rows_of(g@) =~= before.push(s[k as int]));
        }
        k = k + 1;
    }
    assert(s.take(sorted.len() as int) =~= s);
    g
}

/// The window bound named by `bound`, or `default`.
fn bound_exec(bound: &Option<Reference>, constants: &Vec<Value>, o: &Vec<Value>, default: usize) -> (r: Result<
    i128,
    ShapeError,
>)
    ensures
        match bound_value(*bound, models(constants@), models(o@), default as int) {
            Some(n) => r is Ok && r->Ok_0 as int == n && i64::MIN <= n && n <= u64::MAX,
            None => r is Err,
        },
{
    match bound {
        None => Ok(default as i128),
        Some(rf) => {
            let v = resolve_ref(*rf, constants, o);
            match v {
                Err(e) => Err(e),
                Ok(v) => match v {
                    Value::Number(n) => {
                        assert(model(v) == Val::Number(n as int));
                        Ok(n as i128)
                    },
                    _ => {
                        assert(!(model(v) is Number));
                        Err(ShapeError)
                    },
                },
            }
        },
    }
}

fn clamp_exec(x: i128, lo: usize, hi: usize) -> (r: usize)
    requires
        lo <= hi,
    ensures
        r as int == clamp(x as int, lo as int, hi as int),
{
    if x < lo as i128 {
        lo
    } else if x > hi as i128 {
        hi
    } else {
        x as usize
    }
}

/// Rows `f` up to `t` of `g`.
fn slice_rows(g: &Vec<Vec<Value>>, f: usize, t: usize) -> (r: Vec<Vec<Value>>)
    requires
        f <= t <= g.len(),
    ensures
        rows_of(r@) == rows_of(g@).subrange(f as int, t as int),
{
    let mut r: Vec<Vec<Value>> = Vec::new();
    let mut k: usize = f;
    while k < t
        invariant
            f <= k <= t <= g.len(),
            rows_of(r@) == rows_of(g@).subrange(f as int, k as int),
        decreases t - k,
    {
        let ghost before = rows_of(r@);
        r.push(copy_tuple(&g[k]));
        assert(rows_of(r@) =~= before.push(rows_of(g@)[k as int]));
        assert(rows_of(g@).subrange(f as int, k + 1) =~= rows_of(g@).subrange(f as int, k as int).push(rows_of(g@)[k as int]));
        k = k + 1;
    }
    r
}

/// The value of each reducer over `window`.
fn reduce_window(reducers: &Vec<Reducer>, window: &Vec<Vec<Value>>) -> (r: Result<Vec<Value>, ShapeError>)
    ensures
        match reduce_all(reducers@, rows_of(window@)) {
            Some(vs) => r is Ok && models(r->Ok_0@) == vs,
            None => r is Err,
        },
{
    let ghost w = rows_of(window@);
    let mut out: Vec<Value> = Vec::new();
    let mut k: usize = 0;
    assert(reducers@.take(0) =~= Seq::<Reducer>::empty());
    assert(models(out@) =~= Seq::<Val>::empty());
    while k < reducers.len()
        invariant
            k <= reducers.len(),
            w == rows_of(window@),
            reduce_all(reducers@.take(k as int), w) == Some(models(out@)),
        decreases reducers.len() - k,
    {
        assert(reducers@.take(k + 1).drop_last() =~= reducers@.take(k as int));
        assert(reducers@.take(k + 1).last() == reducers@[k as int]);
        let red = &reducers[k];
        match red.primitive.eval_from_aggregate(&red.arguments, window) {
            Err(e) => {
                proof {
                    lemma_reduce_all_none(reducers@, w, k as int + 1);
                }
                return Err(e);
            },
            Ok(v) => {
                let ghost before = out@;
                out.push(v);
                assert(out@.drop_last() =~= before);
            },
        }
        k = k + 1;
    }
    assert(reducers@.take(reducers.len() as int) =~= reducers@);
    Ok(out)
}

proof fn lemma_reduce_all_none(reducers: Seq<Reducer>, w: Seq<Seq<Val>>, k: int)
    requires
        0 <= k <= reducers.len(),
        reduce_all(reducers.take(k), w) is None,
    ensures
        reduce_all(reducers, w) is None,
    decreases reducers.len() - k,
{
    if k == reducers.len() {
        assert(reducers.take(k) =~= reducers);
    } else {
        assert(reducers.take(k + 1).drop_last() =~= reducers.take(k));
        lemma_reduce_all_none(reducers, w, k + 1);
    }
}

fn select_one_exec(a: &Aggregate, state: &Vec<Value>, output: &mut Relation) -> (r: Result<(), ShapeError>)
    requires
        old(output).wf(),
    ensures
        final(output).wf(),
        match select_one(*a, models(state@)) {
            Some(s) => r is Ok && final(output).contents() == old(output).contents().union(s),
            None => r is Err,
        },
{
    match a.select.select(&a.constants, state) {
        Err(e) => Err(e),
        Ok(t) => {
            let ghost m = models(t@);
            output.insert(t);
            assert(output.contents() =~= old(output).contents().union(set![m]));
            Ok(())
        },
    }
}

proof fn lemma_window_outputs_none(a: Aggregate, o: Seq<Val>, w: Seq<Seq<Val>>, reduced: Seq<Val>, k: int)
    requires
        0 <= k <= w.len(),
        window_outputs(a, o, w.take(k), reduced) is None,
    ensures
        window_outputs(a, o, w, reduced) is None,
    decreases w.len() - k,
{
    if k == w.len() {
        assert(w.take(k) =~= w);
    } else {
        assert(w.take(k + 1).drop_last() =~= w.take(k));
        lemma_window_outputs_none(a, o, w, reduced, k + 1);
    }
}

fn window_outputs_exec(
    a: &Aggregate,
    o: &Vec<Value>,
    window: &Vec<Vec<Value>>,
    reduced: &Vec<Value>,
    output: &mut Relation,
) -> (r: Result<(), ShapeError>)
    requires
        old(output).wf(),
    ensures
        final(output).wf(),
        match window_outputs(*a, models(o@), rows_of(window@), models(reduced@)) {
            Some(s) => r is Ok && final(output).contents() == old(output).contents().union(s),
            None => r is Err,
        },
{
    let ghost w = rows_of(window@);
    let ghost mut acc: Set<Seq<Val>> = Set::empty();
    let mut k: usize = 0;
    assert(w.take(0) =~= Seq::<Seq<Val>>::empty());
    assert(output.contents() =~= old(output).contents().union(acc));
    while k < window.len()
        invariant
            k <= window.len(),
            w == rows_of(window@),
            output.wf(),
            window_outputs(*a, models(o@), w.take(k as int), models(reduced@)) == Some(acc),
            output.contents() == old(output).contents().union(acc),
        decreases window.len() - k,
    {
        assert(w.take(k + 1).drop_last() =~= w.take(k as int));
        assert(w.take(k + 1).last() == w[k as int]);
        let first = concat_tuples(o, &window[k]);
        let state = concat_tuples(&first, reduced);
        match select_one_exec(a, &state, output) {
            Err(e) => {
                proof {
                    lemma_window_outputs_none(*a, models(o@), w, models(reduced@), k + 1);
                }
                return Err(e);
            },
            Ok(()) => {},
        }
        proof {
            acc = acc.union(select_one(*a, models(state@))->Some_0);
            assert(output.contents() =~= old(output).contents().union(acc));
        }
        k = k + 1;
    }
    assert(w.take(window.len() as int) =~= w);
    Ok(())
}

fn group_output_exec(a: &Aggregate, o: &Vec<Value>, sorted: &Vec<Vec<Value>>, output: &mut Relation) -> (r: Result<(), ShapeError>)
    requires
        old(output).wf(),
    ensures
        final(output).wf(),
        match group_output(*a, models(o@), rows_of(sorted@)) {
            Some(s) => r is Ok && final(output).contents() == old(output).contents().union(s),
            None => r is Err,
        },
{
    let group = collect_group(sorted, o);
    let from = bound_exec(&a.limit_from, &a.constants, o, 0);
    let to = bound_exec(&a.limit_to, &a.constants, o, group.len());
    let (from, to) = match (from, to) {
        (Ok(f), Ok(t)) => (f, t),
        _ => {
            return Err(ShapeError);
        },
    };
    let f = clamp_exec(from, 0, group.len());
    let t = clamp_exec(to, f, group.len());
    let window = slice_rows(&group, f, t);
    let reduced = match reduce_window(&a.reducers, &window) {
        Err(e) => {
            return Err(e);
        },
        Ok(vs) => vs,
    };
    if a.selects_inner {
        window_outputs_exec(a, o, &window, &reduced, output)
    } else {
        let state = concat_tuples(o, &reduced);
        select_one_exec(a, &state, output)
    }
}

proof fn lemma_groups_output_none(a: Aggregate, outers: Seq<Seq<Val>>, sorted: Seq<Seq<Val>>, k: int)
    requires
        0 <= k <= outers.len(),
        groups_output(a, outers.take(k), sorted) is None,
    ensures
        groups_output(a, outers, sorted) is None,
    decreases outers.len() - k,
{
    if k == outers.len() {
        assert(outers.take(k) =~= outers);
    } else {
        assert(outers.take(k + 1).drop_last() =~= outers.take(k));
        lemma_groups_output_none(a, outers, sorted, k + 1);
    }
}

/// What the groups of a set of outer rows yield together: `None` where one of
/// them fails, else every tuple that one of them yields.
pub open spec fn groups_of_set(a: Aggregate, outers: Set<Seq<Val>>, sorted: Seq<Seq<Val>>) -> Option<Set<Seq<Val>>> {
    if forall|o: Seq<Val>| outers.contains(o) ==> (#[trigger] group_output(a, o, sorted)) is Some {
        Some(
            Set::new(
                |t: Seq<Val>|
                    exists|o: Seq<Val>| outers.contains(o) && (#[trigger] group_output(a, o, sorted))->Some_0.contains(t),
            ),
        )
    } else {
        None
    }
}

/// The groups' output depends only on the set of outer rows: neither their
/// order nor repeated rows change it.
pub proof fn lemma_groups_output_set(a: Aggregate, outers: Seq<Seq<Val>>, sorted: Seq<Seq<Val>>)
    ensures
        groups_output(a, outers, sorted) == groups_of_set(a, outers.to_set(), sorted),
    decreases outers.len(),
{
    if outers.len() == 0 {
        assert(outers.to_set() =~= Set::<Seq<Val>>::empty());
        assert(Set::new(
            |t: Seq<Val>|
                exists|o: Seq<Val>|
                    outers.to_set().contains(o) && (#[trigger] group_output(a, o, sorted))->Some_0.contains(t),
        ) =~= Set::<Seq<Val>>::empty());
    } else {
        let init = outers.drop_last();
        let last = outers.last();
        lemma_groups_output_set(a, init, sorted);
        assert(outers =~= init.push(last));
        init.lemma_push_to_set_commute(last);
        let whole = outers.to_set();
        if groups_of_set(a, whole, sorted) is Some {
            assert(groups_of_set(a, init.to_set(), sorted) is Some);
            assert(group_output(a, last, sorted) is Some);
            let g = group_output(a, last, sorted)->Some_0;
            let rest = groups_of_set(a, init.to_set(), sorted)->Some_0;
            assert(groups_of_set(a, whole, sorted)->Some_0 =~= rest.union(g)) by {
                assert forall|t: Seq<Val>| #[trigger] rest.union(g).contains(t) implies exists|o: Seq<Val>|
                    whole.contains(o) && (#[trigger] group_output(a, o, sorted))->Some_0.contains(t) by {
                    if g.contains(t) {
                        assert(whole.contains(last));
                    } else {
                        let o = choose|o: Seq<Val>|
                            init.to_set().contains(o) && (#[trigger] group_output(a, o, sorted))->Some_0.contains(t);
                        assert(whole.contains(o));
                    }
                }
            }
        } else {
            let o = choose|o: Seq<Val>| whole.contains(o) && !((#[trigger] group_output(a, o, sorted)) is Some);
            if o != last {
                assert(init.to_set().contains(o));
            }
        }
    }
}

fn aggregate_exec(a: &Aggregate, inputs: &[&Relation], output: &mut Relation) -> (r: Result<(), ShapeError>)
    requires
        old(output).wf(),
    ensures
        final(output).wf(),
        match aggregate_output(*a, input_rows(inputs@)) {
            Some(s) => r is Ok && final(output).contents() == old(output).contents().union(s),
            None => r is Err,
        },
{
    let outers = match a.outer.select(inputs) {
        Err(e) => {
            return Err(e);
        },
        Ok(rows) => rows,
    };
    let inner = match a.inner.select(inputs) {
        Err(e) => {
            return Err(e);
        },
        Ok(rows) => rows,
    };
    let sorted = sort_tuples(&inner);
    let ghost projected = rows_of(outers@);
    let mut distinct = Relation::new();
    insert_all(outers, &mut distinct);
    assert(distinct.contents() =~= projected.to_set());
    let outers = distinct.tuples();
    let ghost os = rows_of(outers@);
    let ghost ss = rows_of(sorted@);
    proof {
        lemma_groups_output_set(*a, projected, ss);
        lemma_groups_output_set(*a, os, ss);
    }
    let ghost mut acc: Set<Seq<Val>> = Set::empty();
    let mut k: usize = 0;
    assert(os.take(0) =~= Seq::<Seq<Val>>::empty());
    assert(output.contents() =~= old(output).contents().union(acc));
    while k < outers.len()
        invariant
            k <= outers.len(),
            os == rows_of(outers@),
            ss == rows_of(sorted@),
            aggregate_output(*a, input_rows(inputs@)) == groups_output(*a, os, ss),
            output.wf(),
            groups_output(*a, os.take(k as int), ss) == Some(acc),
            output.contents() == old(output).contents().union(acc),
        decreases outers.len() - k,
    {
        assert(os.take(k + 1).drop_last() =~= os.take(k as int));
        assert(os.take(k + 1).last() == os[k as int]);
        match group_output_exec(a, &outers[k], &sorted, output) {
            Err(e) => {
                proof {
                    lemma_groups_output_none(*a, os, ss, k + 1);
                }
                return Err(e);
            },
            Ok(()) => {},
        }
        proof {
            acc = acc.union(group_output(*a, os[k as int], ss)->Some_0);
            assert(output.contents() =~= old(output).contents().union(acc));
        }
        k = k + 1;
    }
    assert(os.take(outers.len() as int) =~= os);
    Ok(())
}

/// What the selectors yield together.
pub open spec fn union_over(selects: Seq<IndexSelect>, inputs: Seq<Seq<Seq<Val>>>) -> Option<Set<Seq<Val>>>
    decreases selects.len(),
{
    if selects.len() == 0 {
        Some(Set::empty())
    } else {
        union_opt(
            union_over(selects.drop_last(), inputs),
            match selects.last().spec_select(inputs) {
                Some(rows) => Some(rows.to_set()),
                None => None,
            },
        )
    }
}

/// What a union yields: `None` where the number of selectors is not the
/// number of inputs.
pub open spec fn union_output(u: Union, inputs: Seq<Seq<Seq<Val>>>) -> Option<Set<Seq<Val>>> {
    if u.selects.len() != inputs.len() {
        None
    } else {
        union_over(u.selects@, inputs)
    }
}

proof fn lemma_union_over_none(selects: Seq<IndexSelect>, inputs: Seq<Seq<Seq<Val>>>, k: int)
    requires
        0 <= k <= selects.len(),
        union_over(selects.take(k), inputs) is None,
    ensures
        union_over(selects, inputs) is None,
    decreases selects.len() - k,
{
    if k == selects.len() {
        assert(selects.take(k) =~= selects);
    } else {
        assert(selects.take(k + 1).drop_last() =~= selects.take(k));
        lemma_union_over_none(selects, inputs, k + 1);
    }
}

/// Inserts every row of `rows`.
fn insert_all(rows: Vec<Vec<Value>>, output: &mut Relation)
    requires
        old(output).wf(),
    ensures
        final(output).wf(),
        final(output).contents() == old(output).contents().union(rows_of(rows@).to_set()),
{
    let ghost rs = rows_of(rows@);
    let mut k: usize = 0;
    assert(old(output).contents().union(rs.take(0).to_set()) =~= old(output).contents());
    while k < rows.len()
        invariant
            k <= rows.len(),
            rs == rows_of(rows@),
            output.wf(),
            output.contents() == old(output).contents().union(rs.take(k as int).to_set()),
        decreases rows.len() - k,
    {
        output.insert(copy_tuple(&rows[k]));
        assert(rs.take(k + 1) =~= rs.take(k as int).push(rs[k as int]));
        proof {
            rs.take(k as int).lemma_push_to_set_commute(rs[k as int]);
        }
        assert(output.contents() =~= old(output).contents().union(rs.take(k + 1).to_set()));
        k = k + 1;
    }
    assert(rs.take(rows.len() as int) =~= rs);
}

fn union_exec(u: &Union, inputs: &[&Relation], output: &mut Relation) -> (r: Result<(), ShapeError>)
    requires
        old(output).wf(),
    ensures
        final(output).wf(),
        match union_output(*u, input_rows(inputs@)) {
            Some(s) => r is Ok && final(output).contents() == old(output).contents().union(s),
            None => r is Err,
        },
{
    if u.selects.len() != inputs.len() {
        return Err(ShapeError);
    }
    let ghost ins = input_rows(inputs@);
    let ghost mut acc: Set<Seq<Val>> = Set::empty();
    let mut k: usize = 0;
    assert(u.selects@.take(0) =~= Seq::<IndexSelect>::empty());
    assert(output.contents() =~= old(output).contents().union(acc));
    while k < u.selects.len()
        invariant
            k <= u.selects.len(),
            ins == input_rows(inputs@),
            u.selects.len() == inputs.len(),
            output.wf(),
            union_over(u.selects@.take(k as int), ins) == Some(acc),
            output.contents() == old(output).contents().union(acc),
        decreases u.selects.len() - k,
    {
        assert(u.selects@.take(k + 1).drop_last() =~= u.selects@.take(k as int));
        assert(u.selects@.take(k + 1).last() == u.selects@[k as int]);
        match u.selects[k].select(inputs) {
            Err(e) => {
                proof {
                    lemma_union_over_none(u.selects@, ins, k + 1);
                }
                return Err(e);
            },
            Ok(rows) => {
                let ghost s = rows_of(rows@).to_set();
                insert_all(rows, output);
                proof {
                    acc = acc.union(s);
                    assert(output.contents() =~= old(output).contents().union(acc));
                }
            },
        }
        k = k + 1;
    }
    assert(u.selects@.take(u.selects.len() as int) =~= u.selects@);
    Ok(())
}

/// A view: a table, or a way to compute a relation from the outputs upstream.
#[derive(Debug)]
pub enum View {
    Table(Table),
    Union(Union),
    Join(Join),
    Aggregate(Aggregate),
}

/// What a computed view yields over `inputs`, or `None` where it is malformed
/// for them.
pub open spec fn view_output(v: View, inputs: Seq<Seq<Seq<Val>>>) -> Option<Set<Seq<Val>>> {
    match v {
        View::Table(_) => None,
        View::Union(u) => union_output(u, inputs),
        View::Join(j) => join_from(j, inputs, 0, Seq::empty()),
        View::Aggregate(a) => aggregate_output(a, inputs),
    }
}

impl View {
    /// Whether this is a table.
    pub fn is_table(&self) -> (r: bool)
        ensures
            r == (self is Table),
    {
        match self {
            View::Table(_) => true,
            _ => false,
        }
    }

    /// Computes the view's new output from the upstream outputs `inputs`; a
    /// table gives `None`, as it is never recomputed. A union reads one input
    /// per selector. The result depends on the
    /// view and the inputs alone, not on `old_output`.
    pub fn run(&self, old_output: &Relation, inputs: &[&Relation]) -> (r: Result<Option<Relation>, ShapeError>)
        requires
            match *self {
                View::Union(u) => u.selects.len() == inputs@.len(),
                _ => true,
            },
        ensures
            self is Table ==> r is Ok && r->Ok_0 is None,
            !(self is Table) ==> match view_output(*self, input_rows(inputs@)) {
                Some(s) => r is Ok && r->Ok_0 is Some && (r->Ok_0->Some_0).wf() && (r->Ok_0->Some_0).contents() == s,
                None => r is Err,
            },
    {
        let mut output = Relation::new();
        let res = match self {
            View::Table(_) => {
                return Ok(None);
            },
            View::Union(u) => union_exec(u, inputs, &mut output),
            View::Join(j) => {
                let state: Vec<Value> = Vec::new();
                assert(models(state@) =~= Seq::<Val>::empty());
                join_step(j, 0, inputs, &state, &mut output)
            },
            View::Aggregate(a) => aggregate_exec(a, inputs, &mut output),
        };
        match res {
            Err(e) => Err(e),
            Ok(()) => {
                assert(output.contents() =~= Set::<Seq<Val>>::empty().union(view_output(*self, input_rows(inputs@))->Some_0));
                Ok(Some(output))
            },
        }
    }
}

} // verus!
