use eve_runtime::convert::{ToRelation, ToTuple, ToValue};
use eve_runtime::flow::{Flow, Node};
use eve_runtime::primitive::Primitive;
use eve_runtime::relation::Relation;
use eve_runtime::select::{
    Constraint, ConstraintOp, IndexSelect, Reference, ShapeError, ViewSelect,
};
use eve_runtime::value::{compare, compare_tuples, values_equal, Value};
use eve_runtime::view::{Aggregate, Join, JoinSource, Reducer, Table, Union, View};

fn num(n: i64) -> Value {
    Value::Number(n)
}

fn text(s: &str) -> Value {
    Value::String(s.to_string())
}

fn rows_of(rel: &Relation) -> Vec<Vec<Value>> {
    let mut out = Vec::new();
    for i in 0..rel.len() {
        out.push(copy(rel.tuple(i)));
    }
    out
}

fn copy(t: &Vec<Value>) -> Vec<Value> {
    eve_runtime::value::copy_tuple(t)
}

fn holds(rel: &Relation, t: Vec<Value>) -> bool {
    rel.contains(&t)
}

fn table() -> View {
    View::Table(Table { insert: None, remove: None })
}

#[test]
fn order_by_variant_then_contents() {
    assert_eq!(compare(&Value::Bool(true), &text("a")), -1);
    assert_eq!(compare(&text("b"), &text("a")), 1);
    assert_eq!(compare(&text("ab"), &text("abc")), -1);
    assert_eq!(compare(&num(3), &num(3)), 0);
    assert_eq!(compare(&num(-4), &num(3)), -1);
    assert_eq!(compare(&num(1), &Value::Tuple(vec![])), -1);
    assert_eq!(compare_tuples(&vec![num(1), num(2)], &vec![num(1), num(3)]), -1);
    assert_eq!(compare_tuples(&vec![num(1)], &vec![num(1), num(0)]), -1);
    assert!(values_equal(&Value::Tuple(vec![text("x")]), &Value::Tuple(vec![text("x")])));
    assert!(!values_equal(&Value::Tuple(vec![text("x")]), &Value::Tuple(vec![text("y")])));
}

#[test]
fn accessors_and_conversions() {
    let v = "hi".to_value();
    assert_eq!(v.as_str(), "hi");
    let t = Value::Tuple((1i64, true).to_tuple());
    assert_eq!(t.as_slice().len(), 2);
    assert!(values_equal(&t.as_slice()[1], &Value::Bool(true)));
    let rel = vec![(1i64, "a"), (2i64, "b"), (1i64, "a")].to_relation();
    assert_eq!(rel.len(), 2);
    assert!(holds(&rel, vec![num(1), text("a")]));
}

#[test]
fn relation_keeps_sorted_order() {
    let rel = vec![(3i64,), (1i64,), (2i64,)].to_relation();
    let rows = rows_of(&rel);
    assert!(values_equal(&rows[0][0], &num(1)));
    assert!(values_equal(&rows[1][0], &num(2)));
    assert!(values_equal(&rows[2][0], &num(3)));
}

#[test]
fn table_insert_then_remove_is_empty() {
    let mut rel = Relation::new();
    assert!(rel.insert(vec![text("a"), num(1)]));
    assert!(!rel.insert(vec![text("a"), num(1)]));
    assert_eq!(rel.len(), 1);
    assert!(rel.remove(&vec![text("a"), num(1)]));
    assert_eq!(rel.len(), 0);
    assert!(!rel.remove(&vec![text("a"), num(1)]));
}

fn union_of(selects: Vec<IndexSelect>) -> View {
    View::Union(Union { selects })
}

#[test]
fn union_is_order_independent() {
    let a = vec![(1i64, "x"), (2i64, "y")].to_relation();
    let b = vec![(2i64, "y"), (3i64, "z")].to_relation();
    let empty = Relation::new();
    let sel = |source: usize| IndexSelect { source, mapping: vec![0, 1] };
    let u1 = union_of(vec![sel(0), sel(1)]);
    let u2 = union_of(vec![sel(1), sel(0)]);
    let r1 = u1.run(&empty, &[&a, &b]).unwrap().unwrap();
    let r2 = u2.run(&empty, &[&a, &b]).unwrap().unwrap();
    assert_eq!(r1.len(), 3);
    assert_eq!(r2.len(), 3);
    for t in rows_of(&r1) {
        assert!(r2.contains(&t));
    }
}

#[test]
fn union_selector_count_must_match_inputs() {
    let a = vec![(1i64,)].to_relation();
    let empty = Relation::new();
    let mismatched = vec![
        Node { id: "t".to_string(), view: table(), upstream: vec![], downstream: vec![1] },
        Node {
            id: "u".to_string(),
            view: union_of(vec![
                IndexSelect { source: 0, mapping: vec![0] },
                IndexSelect { source: 0, mapping: vec![0] },
            ]),
            upstream: vec![0],
            downstream: vec![],
        },
    ];
    assert_eq!(Flow::new(mismatched).err(), Some(ShapeError));
    let bad_column = union_of(vec![IndexSelect { source: 0, mapping: vec![4] }]);
    assert_eq!(bad_column.run(&empty, &[&a]).err(), Some(ShapeError));
}

#[test]
fn table_view_is_never_recomputed() {
    let empty = Relation::new();
    assert!(table().run(&empty, &[]).unwrap().is_none());
}

fn self_join(constraints: Vec<Vec<Constraint>>) -> View {
    View::Join(Join {
        constants: vec![],
        sources: vec![JoinSource::Relation { input: 0 }, JoinSource::Relation { input: 0 }],
        constraints,
        select: ViewSelect { mapping: vec![Reference::Bound(0), Reference::Bound(3)] },
    })
}

#[test]
fn join_prunes_like_a_filter_after_the_cross_product() {
    let edges = vec![("a", "b"), ("b", "c"), ("c", "d")].to_relation();
    let empty = Relation::new();
    let eq = Constraint { left: 1, op: ConstraintOp::EQ, right: 2 };
    let inline = self_join(vec![vec![], vec![eq]]).run(&empty, &[&edges]).unwrap().unwrap();
    let cross = self_join(vec![vec![], vec![]]).run(&empty, &[&edges]).unwrap().unwrap();
    assert_eq!(cross.len(), 9);
    let mut filtered = Relation::new();
    for i in 0..edges.len() {
        for j in 0..edges.len() {
            let x = edges.tuple(i);
            let y = edges.tuple(j);
            if values_equal(&x[1], &y[0]) {
                filtered.insert(vec![eve_runtime::value::copy_value(&x[0]), eve_runtime::value::copy_value(&y[1])]);
            }
        }
    }
    assert_eq!(inline.len(), 2);
    assert_eq!(filtered.len(), inline.len());
    assert!(holds(&inline, vec![text("a"), text("c")]));
    assert!(holds(&inline, vec![text("b"), text("d")]));
}

#[test]
fn join_constraint_out_of_range_is_an_error() {
    let edges = vec![("a", "b")].to_relation();
    let empty = Relation::new();
    let bad = Constraint { left: 0, op: ConstraintOp::LT, right: 7 };
    let r = self_join(vec![vec![bad], vec![]]).run(&empty, &[&edges]);
    assert_eq!(r.err(), Some(ShapeError));
}

#[test]
fn join_ordering_constraints() {
    let nums = vec![(1i64,), (2i64,), (3i64,)].to_relation();
    let empty = Relation::new();
    let pairs = |op: ConstraintOp| {
        View::Join(Join {
            constants: vec![],
            sources: vec![JoinSource::Relation { input: 0 }, JoinSource::Relation { input: 0 }],
            constraints: vec![vec![], vec![Constraint { left: 0, op, right: 1 }]],
            select: ViewSelect { mapping: vec![Reference::Bound(0), Reference::Bound(1)] },
        })
        .run(&empty, &[&nums])
        .unwrap()
        .unwrap()
        .len()
    };
    assert_eq!(pairs(ConstraintOp::LT), 3);
    assert_eq!(pairs(ConstraintOp::GT), 3);
    assert_eq!(pairs(ConstraintOp::LTE), 6);
    assert_eq!(pairs(ConstraintOp::GTE), 6);
    assert_eq!(pairs(ConstraintOp::EQ), 3);
    assert_eq!(pairs(ConstraintOp::NEQ), 6);
}

#[test]
fn join_with_primitive_sources() {
    let nums = vec![(1i64, 2i64), (10i64, 20i64)].to_relation();
    let empty = Relation::new();
    let add = View::Join(Join {
        constants: vec![text("sum")],
        sources: vec![
            JoinSource::Relation { input: 0 },
            JoinSource::Primitive { primitive: Primitive::Add, arguments: vec![0, 1] },
        ],
        constraints: vec![vec![], vec![]],
        select: ViewSelect {
            mapping: vec![Reference::Constant(0), Reference::Bound(0), Reference::Bound(2)],
        },
    });
    let out = add.run(&empty, &[&nums]).unwrap().unwrap();
    assert_eq!(out.len(), 2);
    assert!(holds(&out, vec![text("sum"), num(1), num(3)]));
    assert!(holds(&out, vec![text("sum"), num(10), num(30)]));

    let range = View::Join(Join {
        constants: vec![],
        sources: vec![
            JoinSource::Relation { input: 0 },
            JoinSource::Primitive { primitive: Primitive::Range, arguments: vec![0, 1] },
        ],
        constraints: vec![vec![], vec![]],
        select: ViewSelect { mapping: vec![Reference::Bound(2)] },
    });
    let out = range.run(&empty, &[&nums]).unwrap().unwrap();
    assert_eq!(out.len(), 11);
    assert!(holds(&out, vec![num(1)]));
    assert!(holds(&out, vec![num(19)]));
    assert!(!holds(&out, vec![num(20)]));
}

#[test]
fn add_overflow_is_an_error() {
    let nums = vec![(i64::MAX, 1i64)].to_relation();
    let empty = Relation::new();
    let add = View::Join(Join {
        constants: vec![],
        sources: vec![
            JoinSource::Relation { input: 0 },
            JoinSource::Primitive { primitive: Primitive::Add, arguments: vec![0, 1] },
        ],
        constraints: vec![vec![], vec![]],
        select: ViewSelect { mapping: vec![Reference::Bound(2)] },
    });
    assert_eq!(add.run(&empty, &[&nums]).err(), Some(ShapeError));
}

fn grouped(limit_from: Option<Reference>, limit_to: Option<Reference>, selects_inner: bool, reducer: Primitive, args: Vec<usize>) -> View {
    View::Aggregate(Aggregate {
        constants: vec![num(1)],
        outer: IndexSelect { source: 0, mapping: vec![0] },
        inner: IndexSelect { source: 1, mapping: vec![0, 1] },
        limit_from,
        limit_to,
        reducers: vec![Reducer { primitive: reducer, arguments: args }],
        selects_inner,
        select: if selects_inner {
            ViewSelect { mapping: vec![Reference::Bound(0), Reference::Bound(2), Reference::Bound(3)] }
        } else {
            ViewSelect { mapping: vec![Reference::Bound(0), Reference::Bound(1)] }
        },
    })
}

#[test]
fn windowed_aggregate_reduces_last_two_rows() {
    let outer = vec![("g",), ("h",)].to_relation();
    let inner = vec![("g", 30i64), ("g", 10i64), ("g", 20i64), ("h", 5i64)].to_relation();
    let empty = Relation::new();
    let count = grouped(Some(Reference::Constant(0)), None, false, Primitive::Count, vec![]);
    let out = count.run(&empty, &[&outer, &inner]).unwrap().unwrap();
    assert_eq!(out.len(), 2);
    assert!(holds(&out, vec![text("g"), num(2)]));
    assert!(holds(&out, vec![text("h"), num(0)]));

    let sum = grouped(Some(Reference::Constant(0)), None, false, Primitive::Sum, vec![1]);
    let out = sum.run(&empty, &[&outer, &inner]).unwrap().unwrap();
    assert!(holds(&out, vec![text("g"), num(50)]));

    let rows = grouped(Some(Reference::Constant(0)), None, true, Primitive::Count, vec![]);
    let out = rows.run(&empty, &[&outer, &inner]).unwrap().unwrap();
    assert_eq!(out.len(), 2);
    assert!(holds(&out, vec![text("g"), num(20), num(2)]));
    assert!(holds(&out, vec![text("g"), num(30), num(2)]));
    assert!(!holds(&out, vec![text("g"), num(10), num(2)]));
}

#[test]
fn aggregate_without_window_sums_whole_group() {
    let outer = vec![("g",)].to_relation();
    let inner = vec![("g", 30i64), ("g", 10i64), ("gg", 7i64)].to_relation();
    let empty = Relation::new();
    let sum = grouped(None, None, false, Primitive::Sum, vec![1]);
    let out = sum.run(&empty, &[&outer, &inner]).unwrap().unwrap();
    assert_eq!(out.len(), 1);
    assert!(holds(&out, vec![text("g"), num(40)]));
    let upto = grouped(None, Some(Reference::Constant(0)), false, Primitive::Sum, vec![1]);
    let out = upto.run(&empty, &[&outer, &inner]).unwrap().unwrap();
    assert!(holds(&out, vec![text("g"), num(10)]));
}

#[test]
fn aggregate_bound_must_be_a_number() {
    let outer = vec![("g",)].to_relation();
    let inner = vec![("g", 1i64)].to_relation();
    let empty = Relation::new();
    let bad = grouped(Some(Reference::Bound(0)), None, false, Primitive::Count, vec![]);
    assert_eq!(bad.run(&empty, &[&outer, &inner]).err(), Some(ShapeError));
    let wrong_role = grouped(None, None, false, Primitive::Add, vec![]);
    assert_eq!(wrong_role.run(&empty, &[&outer, &inner]).err(), Some(ShapeError));
}

fn closure_flow() -> Flow {
    let first_step = View::Join(Join {
        constants: vec![],
        sources: vec![JoinSource::Relation { input: 0 }],
        constraints: vec![vec![]],
        select: ViewSelect { mapping: vec![Reference::Bound(0), Reference::Bound(1)] },
    });
    let next_step = View::Join(Join {
        constants: vec![],
        sources: vec![JoinSource::Relation { input: 0 }, JoinSource::Relation { input: 1 }],
        constraints: vec![vec![], vec![Constraint { left: 2, op: ConstraintOp::EQ, right: 1 }]],
        select: ViewSelect { mapping: vec![Reference::Bound(0), Reference::Bound(3)] },
    });
    let path = union_of(vec![
        IndexSelect { source: 0, mapping: vec![0, 1] },
        IndexSelect { source: 1, mapping: vec![0, 1] },
    ]);
    let nodes = vec![
        Node { id: "edge".to_string(), view: table(), upstream: vec![], downstream: vec![2, 3] },
        Node { id: "path".to_string(), view: path, upstream: vec![2, 3], downstream: vec![2] },
        Node { id: "next_step".to_string(), view: next_step, upstream: vec![0, 1], downstream: vec![1] },
        Node { id: "first_step".to_string(), view: first_step, upstream: vec![0], downstream: vec![1] },
    ];
    let mut flow = Flow::new(nodes).unwrap();
    for (a, b) in [("a", "b"), ("b", "c"), ("c", "d"), ("d", "b")] {
        assert!(flow.insert(0, vec![text(a), text(b)]).unwrap());
    }
    flow
}

#[test]
fn recursive_flow_reaches_transitive_closure() {
    let mut flow = closure_flow();
    assert_eq!(flow.run(1000), Ok(true));
    let path = flow.get_output("path").unwrap();
    assert_eq!(path.len(), 12);
    for from in ["a", "b", "c", "d"] {
        for to in ["b", "c", "d"] {
            assert!(holds(path, vec![text(from), text(to)]));
        }
        assert!(!holds(path, vec![text(from), text("a")]));
    }
    for n in 0..flow.len() {
        assert!(!flow.is_dirty(n));
    }
    assert!(flow.take_changes().len() > 0);
    assert_eq!(flow.take_changes().len(), 0);
    assert_eq!(flow.run(1000), Ok(true));
    assert_eq!(flow.take_changes().len(), 0);
}

#[test]
fn flow_follows_table_removal() {
    let mut flow = closure_flow();
    assert_eq!(flow.run(1000), Ok(true));
    flow.take_changes();
    assert!(flow.remove(0, &vec![text("d"), text("b")]).unwrap());
    assert!(flow.is_dirty(2) && flow.is_dirty(3));
    assert_eq!(flow.run(1000), Ok(true));
    let path = flow.get_output("path").unwrap();
    assert_eq!(path.len(), 6);
    assert!(!holds(path, vec![text("d"), text("b")]));
    let changes = flow.take_changes();
    let removed: usize = changes.iter().filter(|c| c.node == 1).map(|c| c.removed.len()).sum();
    let added: usize = changes.iter().filter(|c| c.node == 1).map(|c| c.added.len()).sum();
    assert_eq!(removed, 6);
    assert_eq!(added, 0);
}

#[test]
fn flow_step_budget_and_errors() {
    let mut flow = closure_flow();
    assert_eq!(flow.run(1), Ok(false));
    assert_eq!(flow.insert(1, vec![text("x"), text("y")]), Err(ShapeError));
    assert_eq!(flow.insert(9, vec![]), Err(ShapeError));
    assert!(flow.get_output("nowhere").is_none());
    let bad = vec![Node { id: "t".to_string(), view: table(), upstream: vec![], downstream: vec![5] }];
    assert!(Flow::new(bad).is_err());
}

#[test]
fn flow_idempotent_at_fixpoint() {
    let mut flow = closure_flow();
    assert_eq!(flow.run(1000), Ok(true));
    flow.take_changes();
    assert!(!flow.insert(0, vec![text("a"), text("b")]).unwrap());
    assert_eq!(flow.run(1000), Ok(true));
    assert_eq!(flow.take_changes().len(), 0);
}

#[test]
fn acyclic_flow_converges_within_node_count_steps() {
    let nodes = vec![
        Node { id: "edge".to_string(), view: table(), upstream: vec![], downstream: vec![1] },
        Node {
            id: "two_step".to_string(),
            view: self_join(vec![vec![], vec![Constraint { left: 1, op: ConstraintOp::EQ, right: 2 }]]),
            upstream: vec![0],
            downstream: vec![2],
        },
        Node {
            id: "copy".to_string(),
            view: union_of(vec![IndexSelect { source: 0, mapping: vec![1, 0] }]),
            upstream: vec![1],
            downstream: vec![],
        },
    ];
    let mut flow = Flow::new(nodes).unwrap();
    flow.insert(0, vec![text("a"), text("b")]).unwrap();
    flow.insert(0, vec![text("b"), text("c")]).unwrap();
    assert_eq!(flow.run(3), Ok(true));
    let copy = flow.get_output("copy").unwrap();
    assert_eq!(copy.len(), 1);
    assert!(holds(copy, vec![text("c"), text("a")]));
}

#[test]
fn nested_relations_compare_by_rows() {
    let a = Value::Relation(vec![vec![num(1)], vec![num(2)]]);
    let b = Value::Relation(vec![vec![num(1)], vec![num(3)]]);
    assert_eq!(compare(&a, &b), -1);
    assert_eq!(compare(&b, &a), 1);
    assert_eq!(compare(&Value::Tuple(vec![]), &a), -1);
    assert!(values_equal(&a, &eve_runtime::value::copy_value(&a)));
}

#[test]
fn join_over_an_empty_relation_is_empty() {
    let empty = Relation::new();
    let out = self_join(vec![vec![], vec![]]).run(&empty, &[&empty]).unwrap().unwrap();
    assert_eq!(out.len(), 0);
}

#[test]
fn aggregate_repeated_outer_rows_count_once() {
    let outer = vec![("g", 1i64), ("g", 2i64)].to_relation();
    let inner = vec![("g", 4i64), ("g", 6i64)].to_relation();
    let empty = Relation::new();
    let sum = grouped(None, None, false, Primitive::Sum, vec![1]);
    let out = sum.run(&empty, &[&outer, &inner]).unwrap().unwrap();
    assert_eq!(out.len(), 1);
    assert!(holds(&out, vec![text("g"), num(10)]));
}

#[test]
fn sum_overflow_is_an_error() {
    let outer = vec![("g",)].to_relation();
    let inner = vec![("g", i64::MAX), ("g", 1i64)].to_relation();
    let empty = Relation::new();
    let sum = grouped(None, None, false, Primitive::Sum, vec![1]);
    assert_eq!(sum.run(&empty, &[&outer, &inner]).err(), Some(ShapeError));
}

#[test]
fn flow_edges_must_be_listed_both_ways() {
    let one_way = vec![
        Node { id: "t".to_string(), view: table(), upstream: vec![], downstream: vec![1] },
        Node {
            id: "u".to_string(),
            view: union_of(vec![]),
            upstream: vec![],
            downstream: vec![],
        },
    ];
    assert_eq!(Flow::new(one_way).err(), Some(ShapeError));
}

#[test]
fn tables_read_nothing() {
    let reading = vec![
        Node { id: "t".to_string(), view: table(), upstream: vec![1], downstream: vec![] },
        Node { id: "s".to_string(), view: table(), upstream: vec![], downstream: vec![0] },
    ];
    assert_eq!(Flow::new(reading).err(), Some(ShapeError));
}

#[test]
fn index_reads_a_tuple_position() {
    let t = Value::Tuple(vec![num(7), text("x")]);
    assert!(values_equal(t.index(1), &text("x")));
    assert!(values_equal(t.index(0), &num(7)));
}

#[test]
fn constraint_between_bound_positions() {
    let state = vec![num(1), num(2)];
    assert!(Constraint { left: 0, op: ConstraintOp::LT, right: 1 }.is_satisfied_by(&state));
    assert!(!Constraint { left: 0, op: ConstraintOp::EQ, right: 1 }.is_satisfied_by(&state));
}
