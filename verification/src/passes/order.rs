//! The order in which blocks pass values to their successors.
use crate::bb::{bb_views, copy_order, count_of, count_of_take, BBView, VCodeBB};
use crate::cfg::{succs_wf, VCodeCFG};
use crate::flow::{args_for, edge_wf};
use crate::pass::{settled, settled_done, settled_next, settled_stuck, Step};
use crate::reg::{copy_regs, CodegenError, Reg};
use vstd::prelude::*;

verus! {

/// An order of values by position; positions may be open.
pub type Order = Seq<Option<Reg>>;

/// An order extended by open positions.
pub open spec fn padded(o: Order, len: int) -> Order {
    Seq::new(
        if o.len() >= len {
            o.len()
        } else {
            len as nat
        },
        |i: int|
            if i < o.len() {
                o[i]
            } else {
                None
            },
    )
}

/// Where a register is listed, from `k` on.
pub open spec fn place_of(regs: Seq<Reg>, r: Reg, k: int) -> int
    decreases regs.len() - k,
{
    if k >= regs.len() || regs[k] == r {
        k
    } else {
        place_of(regs, r, k + 1)
    }
}

/// The position of a register in an order, from `k` on.
pub open spec fn position_of(o: Order, r: Reg, k: int) -> int
    decreases o.len() - k,
{
    if k >= o.len() || o[k] == Some(r) {
        k
    } else {
        position_of(o, r, k + 1)
    }
}

/// Whether some register `a` is passed for a parameter `p`, from the `k`th on.
pub open spec fn passed_for(args: Seq<Reg>, params: Seq<Reg>, a: Reg, p: Reg, k: int) -> bool
    decreases args.len() - k,
{
    if k >= args.len() {
        false
    } else {
        (args[k] == a && params[k] == p) || passed_for(args, params, a, p, k + 1)
    }
}

/// The outputs of a block and the inputs of a successor, with position `i`
/// aligned; `None` where they do not correspond.
pub open spec fn align_one(out: Order, into: Order, args: Seq<Reg>, params: Seq<Reg>, i: int) -> Option<
    (Order, Order),
> {
    match (out[i], into[i]) {
        // Both sides positioned: they must be each other's counterpart.
        (Some(a), Some(p)) => if passed_for(args, params, a, p, 0) {
            Some((out, into))
        } else {
            None
        },
        // If the edge passes the register once, its parameter takes the position.
        (Some(a), None) => {
            let k = place_of(args, a, 0);
            if k < args.len() && count_of(args, a) == 1 && position_of(into, params[k], 0)
                >= into.len() {
                Some((out, into.update(i, Some(params[k]))))
            } else {
                Some((out, into))
            }
        },
        // The register passed for the parameter takes the position.
        (None, Some(p)) => {
            let k = place_of(params, p, 0);
            if k < params.len() {
                Some((out.update(i, Some(args[k])), into))
            } else {
                Some((out, into))
            }
        },
        (None, None) => Some((out, into)),
    }
}

/// The positions from `i` on, below `n`, aligned.
pub open spec fn align_from(
    out: Order,
    into: Order,
    args: Seq<Reg>,
    params: Seq<Reg>,
    i: int,
    n: int,
) -> Option<(Order, Order)>
    decreases n - i,
{
    if i >= n {
        Some((out, into))
    } else {
        match align_one(out, into, args, params, i) {
            Some((o, t)) => align_from(o, t, args, params, i + 1, n),
            None => None,
        }
    }
}

/// The `k`th value of the edge gets a position, if it has none.
pub open spec fn place_one(out: Order, into: Order, arg: Reg, param: Reg) -> Option<(Order, Order)> {
    let j = position_of(into, param, 0);
    if j < into.len() {
        match out[j] {
            None => Some((out.update(j, Some(arg)), into)),
            Some(a) => if a == arg {
                Some((out, into))
            } else {
                None
            },
        }
    } else {
        Some((out.push(Some(arg)), into.push(Some(param))))
    }
}

/// The values from the `k`th on get positions.
pub open spec fn place_from(
    out: Order,
    into: Order,
    args: Seq<Reg>,
    params: Seq<Reg>,
    k: int,
) -> Option<(Order, Order)>
    decreases args.len() - k,
{
    if k >= args.len() {
        Some((out, into))
    } else {
        match place_one(out, into, args[k], params[k]) {
            Some((o, n)) => place_from(o, n, args, params, k + 1),
            None => None,
        }
    }
}

/// The outputs of a block and the inputs of a successor unified: known positions
/// are propagated across the edge, and every value gets one.
pub open spec fn unified(out: Order, into: Order, args: Seq<Reg>, params: Seq<Reg>) -> Option<
    (Order, Order),
> {
    let len = if out.len() >= into.len() {
        out.len() as int
    } else {
        into.len() as int
    };
    match align_from(padded(out, len), padded(into, len), args, params, 0, len) {
        Some((o, n)) => place_from(o, n, args, params, 0),
        None => None,
    }
}

/// The orders of the edge from `v` to `s` unified.
pub open spec fn edge_unified(bbs: Seq<BBView>, v: int, s: int) -> Option<Seq<BBView>> {
    if !edge_wf(bbs, v, s) {
        None
    } else {
        let args = args_for(bbs[v].branch_params, bbs[s].vcode_bb)->Some_0;
        match unified(bbs[v].branch_param_order, bbs[s].param_order, args, bbs[s].params) {
            Some((out, into)) => {
                let b = bbs.update(v, BBView { branch_param_order: out, ..bbs[v] });
                Some(b.update(s, BBView { param_order: into, ..b[s] }))
            },
            None => None,
        }
    }
}

/// The edges of block `v` from the `k`th on unified.
pub open spec fn edges_unified(bbs: Seq<BBView>, succs: Seq<usize>, v: int, k: int) -> Option<
    Seq<BBView>,
>
    decreases succs.len() - k,
{
    if k >= succs.len() {
        Some(bbs)
    } else {
        match edge_unified(bbs, v, succs[k] as int) {
            Some(b) => edges_unified(b, succs, v, k + 1),
            None => None,
        }
    }
}

/// The edges of the first `n` blocks from block `v` on unified.
pub open spec fn orders_swept(
    bbs: Seq<BBView>,
    succs: Map<usize, Seq<usize>>,
    n: int,
    v: int,
) -> Option<Seq<BBView>>
    decreases n - v,
{
    if v >= n {
        Some(bbs)
    } else {
        match edges_unified(bbs, succs[v as usize], v, 0) {
            Some(b) => orders_swept(b, succs, n, v + 1),
            None => None,
        }
    }
}

/// The steps by which the orders are resolved: all edges are unified until that
/// changes nothing.
pub open spec fn order_sweeps(succs: Map<usize, Seq<usize>>) -> spec_fn(Seq<BBView>) -> Step<
    Seq<BBView>,
> {
    |bbs: Seq<BBView>|
        match orders_swept(bbs, succs, bbs.len() as int, 0) {
            Some(b) => if b == bbs {
                Step::Done
            } else {
                Step::Next(b)
            },
            None => Step::Stuck,
        }
}

/// Whether an order has all that another has, and maybe more.
pub open spec fn grown(a: Order, b: Order) -> bool {
    &&& a.len() <= b.len()
    &&& forall|i: int| 0 <= i < a.len() ==> (#[trigger] a[i]) is Some ==> b[i] == a[i]
}

/// How many positions of an order are taken.
spec fn taken(o: Order) -> nat
    decreases o.len(),
{
    if o.len() == 0 {
        0
    } else {
        taken(o.drop_last()) + (if o.last() is Some {
            1nat
        } else {
            0nat
        })
    }
}

proof fn taken_bound(o: Order)
    ensures
        taken(o) <= o.len(),
    decreases o.len(),
{
    if o.len() > 0 {
        taken_bound(o.drop_last());
    }
}

/// A grown order has more positions or more taken ones, unless it is the same.
proof fn grown_measure(a: Order, b: Order)
    requires
        grown(a, b),
    ensures
        taken(a) <= taken(b),
        a.len() == b.len() && taken(a) == taken(b) ==> a == b,
    decreases b.len(),
{
    if b.len() > a.len() {
        assert(grown(a, b.drop_last())) by {
            assert forall|i: int| 0 <= i < a.len() && (#[trigger] a[i]) is Some implies b.drop_last()[i]
                == a[i] by {}
        }
        grown_measure(a, b.drop_last());
    } else if b.len() > 0 {
        assert(grown(a.drop_last(), b.drop_last())) by {
            assert forall|i: int|
                0 <= i < a.drop_last().len() && (#[trigger] a.drop_last()[i]) is Some implies b.drop_last()[i]
                == a.drop_last()[i] by {
                assert(a[i] == a.drop_last()[i]);
            }
        }
        grown_measure(a.drop_last(), b.drop_last());
        assert(a.last() is Some ==> b.last() == a.last()) by {
            assert(a[a.len() - 1] is Some ==> b[a.len() - 1] == a[a.len() - 1]);
        }
        if taken(a) == taken(b) {
            assert(a.drop_last() == b.drop_last());
            assert(a.last() == b.last());
            assert forall|i: int| 0 <= i < a.len() implies a[i] == b[i] by {
                if i < a.len() - 1 {
                    assert(a.drop_last()[i] == b.drop_last()[i]);
                }
            }
            assert(a =~= b);
        }
    } else {
        assert(a =~= b);
    }
}

proof fn grown_trans(a: Order, b: Order, c: Order)
    requires
        grown(a, b),
        grown(b, c),
    ensures
        grown(a, c),
{
    assert forall|i: int| 0 <= i < a.len() && (#[trigger] a[i]) is Some implies c[i] == a[i] by {
        assert(b[i] == a[i]);
    }
}

/// How many of the first `k` parameters have no position.
spec fn unplaced(o: Order, params: Seq<Reg>, k: int) -> nat
    decreases k,
{
    if k <= 0 {
        0
    } else {
        unplaced(o, params, k - 1) + (if o.contains(Some(params[k - 1])) {
            0nat
        } else {
            1nat
        })
    }
}

proof fn grown_contains(a: Order, b: Order, r: Reg)
    requires
        grown(a, b),
        a.contains(Some(r)),
    ensures
        b.contains(Some(r)),
{
    let i = choose|i: int| 0 <= i < a.len() && a[i] == Some(r);
    assert(b[i] == Some(r));
}

proof fn unplaced_mono(a: Order, b: Order, params: Seq<Reg>, k: int)
    requires
        grown(a, b),
    ensures
        unplaced(b, params, k) <= unplaced(a, params, k),
    decreases k,
{
    if k > 0 {
        unplaced_mono(a, b, params, k - 1);
        if a.contains(Some(params[k - 1])) {
            grown_contains(a, b, params[k - 1]);
        }
    }
}

proof fn unplaced_strict(a: Order, b: Order, params: Seq<Reg>, k: int, j: int)
    requires
        grown(a, b),
        0 <= j < k,
        !a.contains(Some(params[j])),
        b.contains(Some(params[j])),
    ensures
        unplaced(b, params, k) < unplaced(a, params, k),
    decreases k,
{
    unplaced_mono(a, b, params, k - 1);
    if j < k - 1 {
        unplaced_strict(a, b, params, k - 1, j);
        if a.contains(Some(params[k - 1])) {
            grown_contains(a, b, params[k - 1]);
        }
    }
}

proof fn position_absent(o: Order, r: Reg, k: int)
    requires
        0 <= k <= o.len(),
    ensures
        k <= position_of(o, r, k) <= o.len(),
        position_of(o, r, k) < o.len() ==> o[position_of(o, r, k)] == Some(r),
        position_of(o, r, k) >= o.len() ==> forall|j: int|
            k <= j < o.len() ==> #[trigger] o[j] != Some(r),
    decreases o.len() - k,
{
    if k < o.len() && o[k] != Some(r) {
        position_absent(o, r, k + 1);
    }
}

proof fn align_grows(out: Order, into: Order, args: Seq<Reg>, params: Seq<Reg>, i: int, n: int)
    requires
        0 <= i,
        n <= out.len(),
        out.len() == into.len(),
    ensures
        align_from(out, into, args, params, i, n) matches Some((o, t)) ==> {
            &&& grown(out, o)
            &&& grown(into, t)
            &&& o.len() == out.len()
            &&& t.len() == into.len()
        },
    decreases n - i,
{
    if i < n {
        if let Some((o, t)) = align_one(out, into, args, params, i) {
            align_grows(o, t, args, params, i + 1, n);
            if let Some((o2, t2)) = align_from(o, t, args, params, i + 1, n) {
                grown_trans(out, o, o2);
                grown_trans(into, t, t2);
            }
        }
    }
}

proof fn place_grows(out: Order, into: Order, args: Seq<Reg>, params: Seq<Reg>, k: int)
    requires
        0 <= k,
        out.len() == into.len(),
        args.len() == params.len(),
    ensures
        place_from(out, into, args, params, k) matches Some((o, t)) ==> {
            &&& grown(out, o)
            &&& grown(into, t)
            &&& o.len() == t.len()
            &&& t.len() + unplaced(t, params, params.len() as int) <= into.len() + unplaced(
                into,
                params,
                params.len() as int,
            )
        },
    decreases args.len() - k,
{
    if k < args.len() {
        position_absent(into, params[k], 0);
        if let Some((o, t)) = place_one(out, into, args[k], params[k]) {
            if position_of(into, params[k], 0) >= into.len() {
                assert(t[into.len() as int] == Some(params[k]));
                assert(!into.contains(Some(params[k])));
                unplaced_strict(into, t, params, params.len() as int, k);
            }
            place_grows(o, t, args, params, k + 1);
            if let Some((o2, t2)) = place_from(o, t, args, params, k + 1) {
                grown_trans(out, o, o2);
                grown_trans(into, t, t2);
            }
        }
    }
}

/// Unifying two orders lets both grow, and by no more than there are parameters
/// without a position.
proof fn unified_grows(out: Order, into: Order, args: Seq<Reg>, params: Seq<Reg>)
    requires
        args.len() == params.len(),
    ensures
        unified(out, into, args, params) matches Some((o, t)) ==> {
            let n = params.len() as int;
            &&& grown(out, o)
            &&& grown(into, t)
            &&& o.len() == t.len()
            &&& t.len() + unplaced(t, params, n) <= out.len() + unplaced(into, params, n)
                || t.len() + unplaced(t, params, n) <= into.len() + unplaced(into, params, n)
        },
{
    let len = if out.len() >= into.len() {
        out.len() as int
    } else {
        into.len() as int
    };
    let o0 = padded(out, len);
    let t0 = padded(into, len);
    assert(grown(out, o0) && grown(into, t0));
    align_grows(o0, t0, args, params, 0, len);
    if let Some((o1, t1)) = align_from(o0, t0, args, params, 0, len) {
        grown_trans(out, o0, o1);
        grown_trans(into, t0, t1);
        place_grows(o1, t1, args, params, 0);
        if let Some((o, t)) = place_from(o1, t1, args, params, 0) {
            grown_trans(out, o1, o);
            grown_trans(into, t1, t);
            unplaced_mono(into, t1, params, params.len() as int);
        }
    }
}

/// How many parameters of the first `k` blocks have no position.
spec fn all_unplaced(bbs: Seq<BBView>, k: int) -> nat
    decreases k,
{
    if k <= 0 {
        0
    } else {
        all_unplaced(bbs, k - 1) + unplaced(
            bbs[k - 1].param_order,
            bbs[k - 1].params,
            bbs[k - 1].params.len() as int,
        )
    }
}

/// The size of an order.
spec fn order_size(o: Order) -> int {
    (o.len() + taken(o)) as int
}

/// The size of the orders of the first `k` blocks.
spec fn all_sizes(bbs: Seq<BBView>, k: int) -> int
    decreases k,
{
    if k <= 0 {
        0
    } else {
        all_sizes(bbs, k - 1) + order_size(bbs[k - 1].param_order) + order_size(
            bbs[k - 1].branch_param_order,
        )
    }
}

/// No order becomes longer than `m`.
spec fn bounded(bbs: Seq<BBView>, m: int) -> bool {
    forall|v: int|
        0 <= v < bbs.len() ==> {
            &&& (#[trigger] bbs[v]).param_order.len() + all_unplaced(bbs, bbs.len() as int) <= m
            &&& bbs[v].branch_param_order.len() + all_unplaced(bbs, bbs.len() as int) <= m
        }
}

/// Whether blocks have grown orders and are otherwise the same.
pub open spec fn orders_grown(a: Seq<BBView>, b: Seq<BBView>) -> bool {
    &&& a.len() == b.len()
    &&& forall|v: int|
        0 <= v < a.len() ==> {
            &&& grown((#[trigger] a[v]).param_order, b[v].param_order)
            &&& grown(a[v].branch_param_order, b[v].branch_param_order)
            &&& b[v] == (BBView {
                param_order: b[v].param_order,
                branch_param_order: b[v].branch_param_order,
                ..a[v]
            })
        }
}

proof fn all_unplaced_grown(a: Seq<BBView>, b: Seq<BBView>, k: int)
    requires
        orders_grown(a, b),
        0 <= k <= a.len(),
    ensures
        all_unplaced(b, k) <= all_unplaced(a, k),
    decreases k,
{
    if k > 0 {
        all_unplaced_grown(a, b, k - 1);
        assert(grown(a[k - 1].param_order, b[k - 1].param_order));
        unplaced_mono(
            a[k - 1].param_order,
            b[k - 1].param_order,
            a[k - 1].params,
            a[k - 1].params.len() as int,
        );
    }
}

proof fn all_unplaced_change(a: Seq<BBView>, b: Seq<BBView>, s: int, k: int)
    requires
        orders_grown(a, b),
        0 <= s < k <= a.len(),
        forall|v: int| 0 <= v < a.len() && v != s ==> (#[trigger] b[v]).param_order == a[v].param_order,
    ensures
        all_unplaced(b, k) - unplaced(b[s].param_order, a[s].params, a[s].params.len() as int)
            == all_unplaced(a, k) - unplaced(
            a[s].param_order,
            a[s].params,
            a[s].params.len() as int,
        ),
    decreases k,
{
    assert(grown(a[k - 1].param_order, b[k - 1].param_order));
    assert(b[k - 1].params == a[k - 1].params);
    if s < k - 1 {
        all_unplaced_change(a, b, s, k - 1);
    } else {
        all_unplaced_same(a, b, k - 1, s);
    }
}

proof fn all_unplaced_same(a: Seq<BBView>, b: Seq<BBView>, k: int, s: int)
    requires
        orders_grown(a, b),
        0 <= k <= s < a.len(),
        forall|v: int| 0 <= v < a.len() && v != s ==> (#[trigger] b[v]).param_order == a[v].param_order,
    ensures
        all_unplaced(b, k) == all_unplaced(a, k),
    decreases k,
{
    if k > 0 {
        all_unplaced_same(a, b, k - 1, s);
        assert(grown(a[k - 1].param_order, b[k - 1].param_order));
        assert(b[k - 1].params == a[k - 1].params);
        assert(b[k - 1].param_order == a[k - 1].param_order);
    }
}

proof fn all_sizes_grown(a: Seq<BBView>, b: Seq<BBView>, k: int)
    requires
        orders_grown(a, b),
        0 <= k <= a.len(),
    ensures
        all_sizes(a, k) <= all_sizes(b, k),
        all_sizes(a, k) == all_sizes(b, k) ==> forall|v: int| 0 <= v < k ==> #[trigger] b[v] == a[v],
    decreases k,
{
    if k > 0 {
        all_sizes_grown(a, b, k - 1);
        let x = a[k - 1];
        let y = b[k - 1];
        assert(grown(x.param_order, y.param_order));
        grown_measure(x.param_order, y.param_order);
        grown_measure(x.branch_param_order, y.branch_param_order);
        if all_sizes(a, k) == all_sizes(b, k) {
            assert(y == x);
        }
    }
}

proof fn all_sizes_bound(bbs: Seq<BBView>, m: int, k: int)
    requires
        bounded(bbs, m),
        0 <= k <= bbs.len(),
        0 <= m,
    ensures
        0 <= all_sizes(bbs, k) <= 4 * m * k,
    decreases k,
{
    if k > 0 {
        all_sizes_bound(bbs, m, k - 1);
        let x = bbs[k - 1];
        taken_bound(x.param_order);
        taken_bound(x.branch_param_order);
        assert(4 * m * k == 4 * m * (k - 1) + 4 * m) by (nonlinear_arith);
    }
}

proof fn orders_grown_trans(a: Seq<BBView>, b: Seq<BBView>, c: Seq<BBView>)
    requires
        orders_grown(a, b),
        orders_grown(b, c),
    ensures
        orders_grown(a, c),
{
    assert forall|v: int| 0 <= v < a.len() implies {
        &&& grown((#[trigger] a[v]).param_order, c[v].param_order)
        &&& grown(a[v].branch_param_order, c[v].branch_param_order)
        &&& c[v] == (BBView {
            param_order: c[v].param_order,
            branch_param_order: c[v].branch_param_order,
            ..a[v]
        })
    } by {
        assert(grown(b[v].param_order, c[v].param_order));
        grown_trans(a[v].param_order, b[v].param_order, c[v].param_order);
        grown_trans(a[v].branch_param_order, b[v].branch_param_order, c[v].branch_param_order);
    }
}

/// Unifying an edge lets orders grow within their bound.
proof fn edge_grows(bbs: Seq<BBView>, v: int, s: int, m: int)
    requires
        0 <= v < bbs.len(),
        0 <= s < bbs.len(),
        bounded(bbs, m),
    ensures
        edge_unified(bbs, v, s) matches Some(b) ==> orders_grown(bbs, b) && bounded(b, m),
{
    if let Some(b) = edge_unified(bbs, v, s) {
        let args = args_for(bbs[v].branch_params, bbs[s].vcode_bb)->Some_0;
        let params = bbs[s].params;
        let n = params.len() as int;
        unified_grows(bbs[v].branch_param_order, bbs[s].param_order, args, params);
        assert(orders_grown(bbs, b)) by {
            assert forall|w: int| 0 <= w < bbs.len() implies {
                &&& grown((#[trigger] bbs[w]).param_order, b[w].param_order)
                &&& grown(bbs[w].branch_param_order, b[w].branch_param_order)
                &&& b[w] == (BBView {
                    param_order: b[w].param_order,
                    branch_param_order: b[w].branch_param_order,
                    ..bbs[w]
                })
            } by {}
        }
        let total = bbs.len() as int;
        all_unplaced_change(bbs, b, s, total);
        all_unplaced_grown(bbs, b, total);
        all_unplaced_holds(bbs, s, total);
        assert forall|w: int| 0 <= w < b.len() implies {
            &&& (#[trigger] b[w]).param_order.len() + all_unplaced(b, total) <= m
            &&& b[w].branch_param_order.len() + all_unplaced(b, total) <= m
        } by {
            assert(bbs[w].param_order.len() + all_unplaced(bbs, total) <= m);
            assert(bbs[v].branch_param_order.len() + all_unplaced(bbs, total) <= m);
            assert(bbs[s].param_order.len() + all_unplaced(bbs, total) <= m);
        }
    }
}

proof fn all_unplaced_holds(bbs: Seq<BBView>, s: int, k: int)
    requires
        0 <= s < k <= bbs.len(),
    ensures
        unplaced(bbs[s].param_order, bbs[s].params, bbs[s].params.len() as int) <= all_unplaced(
            bbs,
            k,
        ),
    decreases k,
{
    if s < k - 1 {
        all_unplaced_holds(bbs, s, k - 1);
    }
}

proof fn edges_grow(bbs: Seq<BBView>, succs: Seq<usize>, v: int, k: int, m: int)
    requires
        0 <= v < bbs.len(),
        0 <= k,
        forall|i: int| 0 <= i < succs.len() ==> #[trigger] succs[i] < bbs.len(),
        bounded(bbs, m),
    ensures
        edges_unified(bbs, succs, v, k) matches Some(b) ==> orders_grown(bbs, b) && bounded(b, m),
    decreases succs.len() - k,
{
    if k < succs.len() {
        edge_grows(bbs, v, succs[k] as int, m);
        if let Some(b) = edge_unified(bbs, v, succs[k] as int) {
            edges_grow(b, succs, v, k + 1, m);
            if let Some(c) = edges_unified(b, succs, v, k + 1) {
                orders_grown_trans(bbs, b, c);
            }
        }
    }
}

proof fn sweep_grows(bbs: Seq<BBView>, succs: Map<usize, Seq<usize>>, v: int, m: int)
    requires
        0 <= v,
        succs_wf(succs, bbs.len()),
        bbs.len() <= usize::MAX,
        bounded(bbs, m),
    ensures
        orders_swept(bbs, succs, bbs.len() as int, v) matches Some(b) ==> orders_grown(bbs, b)
            && bounded(b, m),
    decreases bbs.len() - v,
{
    let n = bbs.len() as int;
    if v < n {
        assert(succs[v as usize].no_duplicates());
        edges_grow(bbs, succs[v as usize], v, 0, m);
        if let Some(b) = edges_unified(bbs, succs[v as usize], v, 0) {
            sweep_grows(b, succs, v + 1, m);
            if let Some(c) = orders_swept(b, succs, n, v + 1) {
                orders_grown_trans(bbs, b, c);
            }
        }
    }
}

/// Extends an order by open positions.
fn pad(o: &Vec<Option<Reg>>, len: usize) -> (r: Vec<Option<Reg>>)
    ensures
        r@ == padded(o@, len as int),
{
    let mut r = copy_order(o);
    while r.len() < len
        invariant
            r@ == padded(o@, r@.len() as int),
            o@.len() <= r@.len(),
            r@.len() <= len || r@.len() == o@.len(),
        decreases len - r@.len(),
    {
        r.push(None);
        assert(r@ =~= padded(o@, r@.len() as int));
    }
    assert(r@ =~= padded(o@, len as int));
    r
}

fn find_position(o: &Vec<Option<Reg>>, r: Reg) -> (k: usize)
    ensures
        k == position_of(o@, r, 0),
        k <= o@.len(),
{
    let mut k: usize = 0;
    while k < o.len()
        invariant
            k <= o@.len(),
            position_of(o@, r, 0) == position_of(o@, r, k as int),
        decreases o@.len() - k,
    {
        match o[k] {
            Some(q) => {
                if q == r {
                    return k;
                }
            },
            None => {},
        }
        k = k + 1;
    }
    k
}

/// Where a register is listed.
pub fn find_place(regs: &Vec<Reg>, r: Reg) -> (k: usize)
    ensures
        k == place_of(regs@, r, 0),
        k <= regs@.len(),
{
    let mut k: usize = 0;
    while k < regs.len() && !(regs[k] == r)
        invariant
            k <= regs@.len(),
            place_of(regs@, r, 0) == place_of(regs@, r, k as int),
        decreases regs@.len() - k,
    {
        k = k + 1;
    }
    k
}

fn check_passed(args: &Vec<Reg>, params: &Vec<Reg>, a: Reg, p: Reg) -> (r: bool)
    requires
        args@.len() == params@.len(),
    ensures
        r == passed_for(args@, params@, a, p, 0),
{
    for k in 0..args.len()
        invariant
            args@.len() == params@.len(),
            passed_for(args@, params@, a, p, 0) == passed_for(args@, params@, a, p, k as int),
    {
        if args[k] == a && params[k] == p {
            return true;
        }
    }
    false
}

/// How often a register is listed.
pub fn count_reg(regs: &Vec<Reg>, r: Reg) -> (n: usize)
    ensures
        n == count_of(regs@, r),
{
    let mut n: usize = 0;
    for i in 0..regs.len()
        invariant
            n == count_of(regs@.take(i as int), r),
            n <= i,
    {
        proof {
            count_of_take(regs@, r, i as int);
        }
        if regs[i] == r {
            n = n + 1;
        }
    }
    assert(regs@.take(regs@.len() as int) =~= regs@);
    n
}

fn align(out: &mut Vec<Option<Reg>>, into: &mut Vec<Option<Reg>>, args: &Vec<Reg>, params: &Vec<Reg>) -> (ok: bool)
    requires
        old(out)@.len() == old(into)@.len(),
        args@.len() == params@.len(),
    ensures
        ok ==> align_from(
            old(out)@,
            old(into)@,
            args@,
            params@,
            0,
            old(out)@.len() as int,
        ) == Some((final(out)@, final(into)@)),
        !ok ==> align_from(
            old(out)@,
            old(into)@,
            args@,
            params@,
            0,
            old(out)@.len() as int,
        ) is None,
        ok ==> final(out)@.len() == final(into)@.len(),
{
    let ghost whole = align_from(out@, into@, args@, params@, 0, out@.len() as int);
    let n: usize = out.len();
    for i in 0..n
        invariant
            n == out@.len(),
            n == into@.len(),
            n == old(out)@.len(),
            args@.len() == params@.len(),
            whole == align_from(old(out)@, old(into)@, args@, params@, 0, n as int),
            whole == align_from(out@, into@, args@, params@, i as int, n as int),
    {
        match (out[i], into[i]) {
            (Some(a), Some(p)) => {
                if !check_passed(args, params, a, p) {
                    return false;
                }
            },
            (Some(a), None) => {
                let k: usize = find_place(args, a);
                if k < args.len() && count_reg(args, a) == 1 {
                    let p = params[k];
                    if find_position(into, p) >= into.len() {
                        into.set(i, Some(p));
                    }
                }
            },
            (None, Some(p)) => {
                let k: usize = find_place(params, p);
                if k < params.len() {
                    out.set(i, Some(args[k]));
                }
            },
            (None, None) => {},
        }
    }
    true
}

fn place(out: &mut Vec<Option<Reg>>, into: &mut Vec<Option<Reg>>, args: &Vec<Reg>, params: &Vec<Reg>) -> (ok: bool)
    requires
        old(out)@.len() == old(into)@.len(),
        args@.len() == params@.len(),
    ensures
        ok ==> place_from(old(out)@, old(into)@, args@, params@, 0) == Some(
            (final(out)@, final(into)@),
        ),
        !ok ==> place_from(old(out)@, old(into)@, args@, params@, 0) is None,
{
    let ghost whole = place_from(out@, into@, args@, params@, 0);
    for k in 0..args.len()
        invariant
            out@.len() == into@.len(),
            args@.len() == params@.len(),
            whole == place_from(old(out)@, old(into)@, args@, params@, 0),
            whole == place_from(out@, into@, args@, params@, k as int),
    {
        let arg = args[k];
        let param = params[k];
        let j: usize = find_position(into, param);
        if j < into.len() {
            match out[j] {
                None => {
                    out.set(j, Some(arg));
                },
                Some(a) => {
                    if !(a == arg) {
                        return false;
                    }
                },
            }
        } else {
            out.push(Some(arg));
            into.push(Some(param));
        }
    }
    true
}

/// Unifies the outputs of a block and the inputs of a successor.
fn unify(
    out: &Vec<Option<Reg>>,
    into: &Vec<Option<Reg>>,
    args: &Vec<Reg>,
    params: &Vec<Reg>,
) -> (r: Option<(Vec<Option<Reg>>, Vec<Option<Reg>>)>)
    requires
        args@.len() == params@.len(),
    ensures
        match r {
            Some((o, t)) => unified(out@, into@, args@, params@) == Some((o@, t@)),
            None => unified(out@, into@, args@, params@) is None,
        },
{
    let len: usize = if out.len() >= into.len() {
        out.len()
    } else {
        into.len()
    };
    let mut o = pad(out, len);
    let mut t = pad(into, len);
    if !align(&mut o, &mut t, args, params) {
        return None;
    }
    if !place(&mut o, &mut t, args, params) {
        return None;
    }
    Some((o, t))
}

fn same_order(a: &Vec<Option<Reg>>, b: &Vec<Option<Reg>>) -> (r: bool)
    ensures
        r == (a@ == b@),
{
    if a.len() != b.len() {
        return false;
    }
    for i in 0..a.len()
        invariant
            a@.len() == b@.len(),
            forall|j: int| 0 <= j < i ==> #[trigger] a@[j] == b@[j],
    {
        let same: bool = match (a[i], b[i]) {
            (Some(x), Some(y)) => x == y,
            (None, None) => true,
            _ => false,
        };
        if !same {
            assert(a@[i as int] != b@[i as int]);
            return false;
        }
    }
    assert(a@ =~= b@);
    true
}

/// Unifies the orders of an edge. Returns whether they changed.
fn unify_edge(blocks: &mut Vec<VCodeBB>, v: usize, s: usize) -> (r: Result<bool, CodegenError>)
    requires
        v < old(blocks)@.len(),
        s < old(blocks)@.len(),
    ensures
        match r {
            Ok(changed) => {
                &&& edge_unified(bb_views(old(blocks)@), v as int, s as int) == Some(
                    bb_views(final(blocks)@),
                )
                &&& changed == (bb_views(final(blocks)@) != bb_views(old(blocks)@))
            },
            Err(e) => e is Malformed && edge_unified(
                bb_views(old(blocks)@),
                v as int,
                s as int,
            ) is None,
        },
{
    let ghost bbs = bb_views(blocks@);
    assert(bbs[v as int] == blocks@[v as int]@);
    assert(bbs[s as int] == blocks@[s as int]@);
    let at: usize = match blocks[v].find_args(blocks[s].vcode_bb) {
        Some(at) => at,
        None => {
            return Err(CodegenError::Malformed);
        },
    };
    let args = copy_regs(&blocks[v].branch_params[at].1);
    assert(args@ == args_for(bbs[v as int].branch_params, bbs[s as int].vcode_bb)->Some_0);
    if args.len() != blocks[s].params.len() {
        return Err(CodegenError::Malformed);
    }
    match unify(&blocks[v].branch_param_order, &blocks[s].param_order, &args, &blocks[s].params) {
        None => Err(CodegenError::Malformed),
        Some((out, into)) => {
            let changed: bool = !same_order(&out, &blocks[v].branch_param_order) || !same_order(
                &into,
                &blocks[s].param_order,
            );
            let mut b = blocks[v].copy();
            b.branch_param_order = out;
            let ghost mid = bbs.update(v as int, b@);
            blocks.set(v, b);
            assert(bb_views(blocks@) =~= mid);
            assert(mid[s as int] == blocks@[s as int]@);
            let mut c = blocks[s].copy();
            c.param_order = into;
            let ghost done = mid.update(s as int, c@);
            blocks.set(s, c);
            assert(bb_views(blocks@) =~= done);
            proof {
                let e = edge_unified(bbs, v as int, s as int)->Some_0;
                assert(done =~= e);
                if !changed {
                    assert forall|w: int| 0 <= w < done.len() implies done[w] == bbs[w] by {
                        assert(done[w] =~= bbs[w]);
                    }
                    assert(done =~= bbs);
                } else if done == bbs {
                    assert(done[v as int].branch_param_order == bbs[v as int].branch_param_order);
                    assert(done[s as int].param_order == bbs[s as int].param_order);
                }
            }
            Ok(changed)
        },
    }
}

/// Unifies the orders of all edges of a block. Returns whether they changed.
fn unify_edges(blocks: &mut Vec<VCodeBB>, succs: &Vec<usize>, v: usize) -> (r: Result<
    bool,
    CodegenError,
>)
    requires
        v < old(blocks)@.len(),
        forall|i: int| 0 <= i < succs@.len() ==> #[trigger] succs@[i] < old(blocks)@.len(),
    ensures
        match r {
            Ok(changed) => {
                &&& edges_unified(bb_views(old(blocks)@), succs@, v as int, 0) == Some(
                    bb_views(final(blocks)@),
                )
                &&& !changed ==> bb_views(final(blocks)@) == bb_views(old(blocks)@)
                &&& changed ==> final_differs(bb_views(old(blocks)@), bb_views(final(blocks)@))
                &&& final(blocks)@.len() == old(blocks)@.len()
            },
            Err(e) => e is Malformed && edges_unified(
                bb_views(old(blocks)@),
                succs@,
                v as int,
                0,
            ) is None,
        },
{
    let ghost bbs = bb_views(blocks@);
    let ghost n = blocks@.len();
    let mut changed: bool = false;
    for k in 0..succs.len()
        invariant
            v < n,
            n == blocks@.len(),
            n == old(blocks)@.len(),
            bbs == bb_views(old(blocks)@),
            forall|i: int| 0 <= i < succs@.len() ==> #[trigger] succs@[i] < n,
            edges_unified(bbs, succs@, v as int, 0) == edges_unified(
                bb_views(blocks@),
                succs@,
                v as int,
                k as int,
            ),
            !changed ==> bb_views(blocks@) == bbs,
            changed ==> final_differs(bbs, bb_views(blocks@)),
            orders_grown(bbs, bb_views(blocks@)),
    {
        let ghost b0 = bb_views(blocks@);
        proof {
            length_bound_holds(b0);
            let m = length_bound(b0);
            edge_grows(b0, v as int, succs@[k as int] as int, m);
        }
        match unify_edge(blocks, v, succs[k]) {
            Ok(c) => {
                proof {
                    let b1 = bb_views(blocks@);
                    assert(b1.len() == n);
                    orders_grown_trans(bbs, b0, b1);
                    differs_further(bbs, b0, b1);
                    if c && !changed {
                        differs_once(bbs, b1);
                    }
                }
                changed = changed || c;
            },
            Err(e) => {
                return Err(e);
            },
        }
    }
    Ok(changed)
}

/// Whether grown orders are larger.
spec fn final_differs(a: Seq<BBView>, b: Seq<BBView>) -> bool {
    all_sizes(a, a.len() as int) < all_sizes(b, b.len() as int)
}

proof fn differs_once(a: Seq<BBView>, b: Seq<BBView>)
    requires
        orders_grown(a, b),
        a != b,
    ensures
        final_differs(a, b),
{
    all_sizes_grown(a, b, a.len() as int);
    if all_sizes(a, a.len() as int) == all_sizes(b, b.len() as int) {
        assert(a =~= b);
    }
}

proof fn differs_further(a: Seq<BBView>, b: Seq<BBView>, c: Seq<BBView>)
    requires
        orders_grown(a, b),
        orders_grown(b, c),
    ensures
        final_differs(a, b) ==> final_differs(a, c),
{
    all_sizes_grown(b, c, b.len() as int);
}

/// The length of all orders of the first `k` blocks.
spec fn all_lengths(bbs: Seq<BBView>, k: int) -> nat
    decreases k,
{
    if k <= 0 {
        0
    } else {
        all_lengths(bbs, k - 1) + bbs[k - 1].param_order.len() + bbs[k - 1].branch_param_order.len()
    }
}

proof fn all_lengths_hold(bbs: Seq<BBView>, k: int, v: int)
    requires
        0 <= v < k,
    ensures
        bbs[v].param_order.len() <= all_lengths(bbs, k),
        bbs[v].branch_param_order.len() <= all_lengths(bbs, k),
    decreases k,
{
    if v < k - 1 {
        all_lengths_hold(bbs, k - 1, v);
    }
}

/// A length that no order exceeds.
spec fn length_bound(bbs: Seq<BBView>) -> int {
    (all_lengths(bbs, bbs.len() as int) + all_unplaced(bbs, bbs.len() as int)) as int
}

proof fn length_bound_holds(bbs: Seq<BBView>)
    ensures
        0 <= length_bound(bbs),
        bounded(bbs, length_bound(bbs)),
{
    assert forall|v: int| 0 <= v < bbs.len() implies {
        &&& (#[trigger] bbs[v]).param_order.len() + all_unplaced(bbs, bbs.len() as int)
            <= length_bound(bbs)
        &&& bbs[v].branch_param_order.len() + all_unplaced(bbs, bbs.len() as int) <= length_bound(
            bbs,
        )
    } by {
        all_lengths_hold(bbs, bbs.len() as int, v);
    }
}

/// Unifies the orders of all edges. Returns whether they changed.
fn sweep_orders(cfg: &mut VCodeCFG) -> (r: Result<bool, CodegenError>)
    requires
        old(cfg).wf(),
    ensures
        match r {
            Ok(changed) => {
                &&& final(cfg).wf()
                &&& final(cfg).graph == old(cfg).graph
                &&& final(cfg).root == old(cfg).root
                &&& orders_swept(
                    old(cfg).bbs(),
                    old(cfg).succs(),
                    old(cfg).bbs().len() as int,
                    0,
                ) == Some(final(cfg).bbs())
                &&& changed == (final(cfg).bbs() != old(cfg).bbs())
            },
            Err(e) => e is Malformed && orders_swept(
                old(cfg).bbs(),
                old(cfg).succs(),
                old(cfg).bbs().len() as int,
                0,
            ) is None,
        },
{
    let ghost bbs = cfg.bbs();
    let ghost succs = cfg.succs();
    let n: usize = cfg.blocks.len();
    let mut changed: bool = false;
    for v in 0..n
        invariant
            n == cfg.blocks@.len(),
            n == bbs.len(),
            cfg.wf(),
            cfg.graph == old(cfg).graph,
            cfg.root == old(cfg).root,
            bbs == old(cfg).bbs(),
            succs == old(cfg).succs(),
            succs == cfg.succs(),
            orders_swept(bbs, succs, n as int, 0) == orders_swept(
                cfg.bbs(),
                succs,
                n as int,
                v as int,
            ),
            !changed ==> cfg.bbs() == bbs,
            changed ==> final_differs(bbs, cfg.bbs()),
            orders_grown(bbs, cfg.bbs()),
    {
        let ghost b0 = cfg.bbs();
        let out = cfg.successors(v);
        proof {
            assert(succs[v].no_duplicates());
            length_bound_holds(b0);
            let m = length_bound(b0);
            edges_grow(b0, out@, v as int, 0, m);
        }
        match unify_edges(&mut cfg.blocks, &out, v) {
            Ok(c) => {
                proof {
                    let b1 = cfg.bbs();
                    orders_grown_trans(bbs, b0, b1);
                    differs_further(bbs, b0, b1);
                    assert forall|i: int, j: int| 0 <= i < j < b1.len() implies (
                    #[trigger] b1[i]).vcode_bb != (#[trigger] b1[j]).vcode_bb by {
                        assert(b0[i].vcode_bb != b0[j].vcode_bb);
                        assert(b1[i].vcode_bb == b0[i].vcode_bb);
                        assert(b1[j].vcode_bb == b0[j].vcode_bb);
                    }
                }
                changed = changed || c;
            },
            Err(e) => {
                return Err(e);
            },
        }
    }
    Ok(changed)
}

/// Resolves the orders of the inputs and outputs of all blocks: unifies the
/// orders of all edges until nothing changes.
pub fn resolve_orders(cfg: &mut VCodeCFG) -> (r: Result<(), CodegenError>)
    requires
        old(cfg).wf(),
    ensures
        match r {
            Ok(()) => {
                &&& final(cfg).wf()
                &&& final(cfg).graph == old(cfg).graph
                &&& final(cfg).root == old(cfg).root
                &&& settled(order_sweeps(old(cfg).succs()), old(cfg).bbs()) == Some(
                    final(cfg).bbs(),
                )
                &&& orders_grown(old(cfg).bbs(), final(cfg).bbs())
            },
            Err(e) => e is Malformed && settled(
                order_sweeps(old(cfg).succs()),
                old(cfg).bbs(),
            ) is None,
        },
{
    let ghost start = cfg.bbs();
    let ghost succs = cfg.succs();
    let ghost steps = order_sweeps(succs);
    proof {
        length_bound_holds(start);
    }
    let ghost m = length_bound(start);
    let n: usize = cfg.blocks.len();
    loop
        invariant
            cfg.wf(),
            cfg.graph == old(cfg).graph,
            cfg.root == old(cfg).root,
            succs == cfg.succs(),
            succs == old(cfg).succs(),
            start == old(cfg).bbs(),
            n == cfg.bbs().len(),
            steps == order_sweeps(succs),
            0 <= m,
            bounded(cfg.bbs(), m),
            orders_grown(start, cfg.bbs()),
            settled(steps, start) == settled(steps, cfg.bbs()),
        decreases 4 * m * n - all_sizes(cfg.bbs(), n as int),
    {
        let ghost b0 = cfg.bbs();
        proof {
            sweep_grows(b0, succs, 0, m);
        }
        match sweep_orders(cfg) {
            Ok(changed) => {
                if !changed {
                    proof {
                        settled_done(steps, b0);
                    }
                    return Ok(());
                }
                proof {
                    settled_next(steps, b0);
                    let b1 = cfg.bbs();
                    orders_grown_trans(start, b0, b1);
                    differs_once(b0, b1);
                    all_sizes_bound(b1, m, n as int);
                    all_sizes_bound(b0, m, n as int);
                }
            },
            Err(e) => {
                proof {
                    settled_stuck(steps, b0);
                }
                return Err(e);
            },
        }
    }
}

/// An edge whose unification is followed by no growth was left as it is.
proof fn edges_unchanged(bbs: Seq<BBView>, succs: Seq<usize>, v: int, k: int, m: int, j: int)
    requires
        0 <= v < bbs.len(),
        0 <= k <= j < succs.len(),
        forall|i: int| 0 <= i < succs.len() ==> #[trigger] succs[i] < bbs.len(),
        bounded(bbs, m),
        edges_unified(bbs, succs, v, k) == Some(bbs),
    ensures
        edge_unified(bbs, v, succs[j] as int) == Some(bbs),
    decreases j - k,
{
    edge_grows(bbs, v, succs[k] as int, m);
    let b = edge_unified(bbs, v, succs[k] as int)->Some_0;
    edges_grow(b, succs, v, k + 1, m);
    grown_back(bbs, b, bbs);
    if k < j {
        edges_unchanged(bbs, succs, v, k + 1, m, j);
    }
}

/// Orders that grow and come back have not changed.
proof fn grown_back(a: Seq<BBView>, b: Seq<BBView>, c: Seq<BBView>)
    requires
        orders_grown(a, b),
        orders_grown(b, c),
        a == c,
    ensures
        a == b,
{
    all_sizes_grown(a, b, a.len() as int);
    all_sizes_grown(b, c, a.len() as int);
    assert(a =~= b);
}

proof fn sweep_unchanged(
    bbs: Seq<BBView>,
    succs: Map<usize, Seq<usize>>,
    w: int,
    m: int,
    v: int,
)
    requires
        0 <= w <= v < bbs.len(),
        succs_wf(succs, bbs.len()),
        bbs.len() <= usize::MAX,
        bounded(bbs, m),
        orders_swept(bbs, succs, bbs.len() as int, w) == Some(bbs),
    ensures
        edges_unified(bbs, succs[v as usize], v, 0) == Some(bbs),
    decreases v - w,
{
    assert(succs[w as usize].no_duplicates());
    edges_grow(bbs, succs[w as usize], w, 0, m);
    let b = edges_unified(bbs, succs[w as usize], w, 0)->Some_0;
    sweep_grows(b, succs, w + 1, m);
    grown_back(bbs, b, bbs);
    if w < v {
        sweep_unchanged(bbs, succs, w + 1, m, v);
    }
}

/// Resolved orders agree across every edge: unifying the orders of the edge's
/// ends changes nothing.
pub proof fn resolved_orders_agree(
    start: Seq<BBView>,
    succs: Map<usize, Seq<usize>>,
    v: int,
    k: int,
)
    requires
        succs_wf(succs, start.len()),
        start.len() <= usize::MAX,
        settled(order_sweeps(succs), start) is Some,
        0 <= v < start.len(),
        0 <= k < succs[v as usize].len(),
    ensures
        ({
            let bbs = settled(order_sweeps(succs), start)->Some_0;
            edge_unified(bbs, v, succs[v as usize][k] as int) == Some(bbs)
        }),
{
    let keeps = |x: Seq<BBView>| x.len() == start.len();
    assert forall|x: Seq<BBView>| #[trigger] keeps(x) && order_sweeps(succs)(x) is Next implies keeps(
        order_sweeps(succs)(x)->Next_0,
    ) by {
        length_bound_holds(x);
        sweep_grows(x, succs, 0, length_bound(x));
    }
    crate::pass::settled_keeps(order_sweeps(succs), start, keeps);
    let bbs = settled(order_sweeps(succs), start)->Some_0;
    length_bound_holds(bbs);
    let m = length_bound(bbs);
    assert(orders_swept(bbs, succs, bbs.len() as int, 0) == Some(bbs));
    sweep_unchanged(bbs, succs, 0, m, v);
    assert(succs[v as usize].no_duplicates());
    edges_unchanged(bbs, succs[v as usize], v, 0, m, k);
}

/// Orders that unify without a change hold corresponding registers wherever both
/// have one.
pub proof fn agreeing_orders_correspond(
    out: Order,
    into: Order,
    args: Seq<Reg>,
    params: Seq<Reg>,
    i: int,
)
    requires
        args.len() == params.len(),
        unified(out, into, args, params) == Some((out, into)),
        0 <= i < out.len(),
        i < into.len(),
        out[i] is Some,
        into[i] is Some,
    ensures
        passed_for(args, params, out[i]->Some_0, into[i]->Some_0, 0),
{
    let len = if out.len() >= into.len() {
        out.len() as int
    } else {
        into.len() as int
    };
    let o0 = padded(out, len);
    let t0 = padded(into, len);
    unified_grows(out, into, args, params);
    assert(out.len() == into.len());
    assert(o0 =~= out);
    assert(t0 =~= into);
    align_checks(out, into, args, params, 0, len, i);
}

proof fn align_checks(
    out: Order,
    into: Order,
    args: Seq<Reg>,
    params: Seq<Reg>,
    k: int,
    n: int,
    i: int,
)
    requires
        0 <= k <= i < n <= out.len(),
        out.len() == into.len(),
        out[i] is Some,
        into[i] is Some,
        align_from(out, into, args, params, k, n) is Some,
    ensures
        passed_for(args, params, out[i]->Some_0, into[i]->Some_0, 0),
    decreases i - k,
{
    if k < i {
        let (o, t) = align_one(out, into, args, params, k)->Some_0;
        assert(o[i] == out[i] && t[i] == into[i]);
        align_checks(o, t, args, params, k + 1, n, i);
    }
}

} // verus!
