//! The echo chains that receive delivered operands and reroute each to its
//! consumer.
use crate::inst::{views, MInst, MInstOf, MInstView, QUEUE_CAPACITY};
use crate::reg::{ran_out, vreg, CodegenError, Reg, VRegAllocator, VREG_LIMIT};
use vstd::prelude::*;

verus! {

/// The smaller of two integers.
pub open spec fn min_of(a: int, b: int) -> int {
    if a <= b {
        a
    } else {
        b
    }
}

/// The concrete echo that routes `rss` to `rds`: the first two terminally, the
/// rest chained to the following instruction.
pub open spec fn echo_of(rds: Seq<Reg>, rss: Seq<Reg>) -> MInstView {
    if rds.len() == 1 {
        MInstOf::EchoLong { rds, rss, out: 0 }
    } else if rds.len() == 2 {
        MInstOf::EchoSplit { rd1: rds[0], rd2: rds[1], rs1: rss[0], rs2: rss[1], out1: 0, out2: 0 }
    } else {
        MInstOf::EchoChain {
            rd1: rds[0],
            rd2: rds[1],
            rs1: rss[0],
            rs2: rss[1],
            out1: 0,
            out2: 0,
            rd_chain: rds.skip(2),
            rs_chain: rss.skip(2),
        }
    }
}

/// How many operands of a queue are terminally output.
pub open spec fn taken_of(queue: Seq<(Reg, Reg)>) -> int {
    min_of(2, queue.len() as int)
}

/// The destinations of an echo whose ready queue is `queue`: the operands'
/// own for the first two, fresh registers for the chained ones.
pub open spec fn echo_dests(queue: Seq<(Reg, Reg)>, next: int) -> Seq<Reg> {
    Seq::new(
        queue.len(),
        |i: int|
            if i < taken_of(queue) {
                queue[i].0
            } else {
                vreg(next + i - taken_of(queue))
            },
    )
}

/// The operands in a queue.
pub open spec fn sources_of(queue: Seq<(Reg, Reg)>) -> Seq<Reg> {
    Seq::new(queue.len(), |i: int| queue[i].1)
}

/// The operands chained on, under their fresh registers.
pub open spec fn chained_of(queue: Seq<(Reg, Reg)>, next: int) -> Seq<(Reg, Reg)> {
    Seq::new(
        (queue.len() - taken_of(queue)) as nat,
        |i: int| (queue[taken_of(queue) + i].0, vreg(next + i)),
    )
}

/// How many newly delivered operands the following echo receives: as many as
/// the chained operands leave queue capacity for.
pub open spec fn group_of(queue: Seq<(Reg, Reg)>, remaining: Seq<(Reg, Reg)>) -> int {
    min_of(remaining.len() as int, QUEUE_CAPACITY - (queue.len() - taken_of(queue)))
}

/// The queue of the following echo: the newly delivered operands, then the
/// chained ones.
pub open spec fn next_queue(
    queue: Seq<(Reg, Reg)>,
    remaining: Seq<(Reg, Reg)>,
    next: int,
) -> Seq<(Reg, Reg)> {
    remaining.take(group_of(queue, remaining)) + chained_of(queue, next)
}

/// The echoes that receive the operands in `queue` and those still to come, and
/// the index of the next fresh register afterwards. Operands are pairs of a
/// destination and the delivered register.
pub open spec fn chain_from(
    queue: Seq<(Reg, Reg)>,
    remaining: Seq<(Reg, Reg)>,
    next: int,
) -> (Seq<MInstView>, int)
    decreases queue.len() + remaining.len(),
    when queue.len() <= QUEUE_CAPACITY
{
    if queue.len() == 0 {
        (seq![], next)
    } else {
        let g = group_of(queue, remaining);
        let rest = chain_from(
            next_queue(queue, remaining, next),
            remaining.skip(g),
            next + (queue.len() - taken_of(queue)),
        );
        (seq![echo_of(echo_dests(queue, next), sources_of(queue))] + rest.0, rest.1)
    }
}

/// How many operands the first echo of a chain receives.
pub open spec fn first_group(n: int) -> int {
    min_of(QUEUE_CAPACITY as int, n)
}

/// The echo chain that receives `ops` in wire order.
pub open spec fn chain_of(ops: Seq<(Reg, Reg)>, next: int) -> (Seq<MInstView>, int) {
    chain_from(
        ops.take(first_group(ops.len() as int)),
        ops.skip(first_group(ops.len() as int)),
        next,
    )
}

/// The index of the next fresh register only grows along a chain.
proof fn chain_next_grows(queue: Seq<(Reg, Reg)>, remaining: Seq<(Reg, Reg)>, next: int)
    requires
        queue.len() <= QUEUE_CAPACITY,
    ensures
        chain_from(queue, remaining, next).1 >= next,
    decreases queue.len() + remaining.len(),
{
    if queue.len() > 0 {
        chain_next_grows(
            next_queue(queue, remaining, next),
            remaining.skip(group_of(queue, remaining)),
            next + (queue.len() - taken_of(queue)),
        );
    }
}

/// A chain takes registers and hands none back.
pub proof fn chain_of_grows(ops: Seq<(Reg, Reg)>, next: int)
    ensures
        chain_of(ops, next).1 >= next,
{
    let g = first_group(ops.len() as int);
    chain_next_grows(ops.take(g), ops.skip(g), next);
}

/// The registers from the third one on.
fn tail_from_two(regs: &Vec<Reg>) -> (r: Vec<Reg>)
    requires
        regs@.len() >= 2,
    ensures
        r@ == regs@.skip(2),
{
    let mut r: Vec<Reg> = Vec::new();
    for i in 2..regs.len()
        invariant
            regs@.len() >= 2,
            r@ == regs@.subrange(2, i as int),
    {
        r.push(regs[i]);
        assert(r@ =~= regs@.subrange(2, i as int + 1));
    }
    assert(r@ =~= regs@.skip(2));
    r
}

/// The concrete echo that routes `rss` to `rds`.
fn make_echo(rds: Vec<Reg>, rss: Vec<Reg>) -> (r: MInst)
    requires
        rds@.len() == rss@.len(),
        rds@.len() > 0,
    ensures
        r@ == echo_of(rds@, rss@),
{
    if rds.len() == 1 {
        MInst::EchoLong { rds, rss, out: 0 }
    } else if rds.len() == 2 {
        MInst::EchoSplit { rd1: rds[0], rd2: rds[1], rs1: rss[0], rs2: rss[1], out1: 0, out2: 0 }
    } else {
        MInst::EchoChain {
            rd1: rds[0],
            rd2: rds[1],
            rs1: rss[0],
            rs2: rss[1],
            out1: 0,
            out2: 0,
            rd_chain: tail_from_two(&rds),
            rs_chain: tail_from_two(&rss),
        }
    }
}

impl MInst {
    /// Constructs the echo chain that receives a set of delivered operands
    /// (block parameters or call return values) and reroutes each to its
    /// consumer.
    ///
    /// `ops` are `(destination, delivered operand)` pairs in wire order. Since
    /// one instruction can ingest at most [`QUEUE_CAPACITY`] operands, the
    /// producers deliver the operands spread over the chain's instructions
    /// according to [`delivery_group`]: the first 4 to the first echo, then 2
    /// per following echo. Each echo's ready queue holds the newly delivered
    /// operands followed by the operands chained on from the previous echo; it
    /// terminally outputs the first 2 with individual references and chains the
    /// rest to the next instruction.
    #[verifier::rlimit(60)]
    pub fn receive_chain(
        ops: &Vec<(Reg, Reg)>,
        vregs: &mut VRegAllocator,
    ) -> (r: Result<Vec<MInst>, CodegenError>)
        requires
            old(vregs).wf(),
        ensures
            final(vregs).wf(),
            match r {
                Ok(chain) => {
                    &&& views(chain@) == chain_of(ops@, old(vregs).next as int).0
                    &&& final(vregs).next == chain_of(ops@, old(vregs).next as int).1
                },
                Err(e) => {
                    &&& ran_out(e, final(vregs).next)
                    &&& chain_of(ops@, old(vregs).next as int).1 > VREG_LIMIT
                },
            },
    {
        let mut result: Vec<MInst> = Vec::new();
        let ghost start = vregs.next as int;
        let ghost whole = chain_of(ops@, start);

        // The first echo's queue is filled entirely with delivered operands.
        let first: usize = if ops.len() < QUEUE_CAPACITY {
            ops.len()
        } else {
            QUEUE_CAPACITY
        };
        let mut queue: Vec<(Reg, Reg)> = Vec::new();
        for i in 0..first
            invariant
                first <= ops@.len(),
                queue@ == ops@.take(i as int),
        {
            queue.push(ops[i]);
            assert(queue@ =~= ops@.take(i as int + 1));
        }
        let mut pos: usize = first;
        assert(views(result@) =~= seq![]);
        assert(whole.0 =~= views(result@) + chain_from(queue@, ops@.skip(pos as int), start).0);

        while queue.len() > 0
            invariant
                vregs.wf(),
                pos <= ops@.len(),
                queue@.len() <= QUEUE_CAPACITY,
                whole == chain_of(ops@, old(vregs).next as int),
                whole.0 == views(result@) + chain_from(
                    queue@,
                    ops@.skip(pos as int),
                    vregs.next as int,
                ).0,
                whole.1 == chain_from(queue@, ops@.skip(pos as int), vregs.next as int).1,
            decreases queue@.len() + (ops@.len() - pos),
        {
            let ghost q0 = queue@;
            let ghost rem0 = ops@.skip(pos as int);
            let ghost n0 = vregs.next as int;
            let ghost res0 = views(result@);
            let mut rds: Vec<Reg> = Vec::new();
            let mut rss: Vec<Reg> = Vec::new();
            let mut chained: Vec<(Reg, Reg)> = Vec::new();

            // The first 2 queue operands are terminally output.
            let taken: usize = if queue.len() < 2 {
                queue.len()
            } else {
                2
            };
            let qlen: usize = queue.len();
            for i in 0..qlen
                invariant
                    vregs.wf(),
                    queue@ == q0,
                    qlen == q0.len(),
                    q0.len() <= QUEUE_CAPACITY,
                    taken == taken_of(q0),
                    vregs.next == n0 + (if i < taken {
                        0
                    } else {
                        i - taken
                    }),
                    rds@ == echo_dests(q0, n0).take(i as int),
                    rss@ == sources_of(q0).take(i as int),
                    chained@ == chained_of(q0, n0).take(
                        if i < taken {
                            0
                        } else {
                            i - taken
                        },
                    ),
                    whole == chain_of(ops@, old(vregs).next as int),
                    whole.1 == chain_from(q0, rem0, n0).1,
                    q0.len() > 0,
            {
                if i < taken {
                    rds.push(queue[i].0);
                } else {
                    // The rest are chained on to the following echo.
                    match vregs.fresh() {
                        Ok(new_rd) => {
                            rds.push(new_rd);
                            chained.push((queue[i].0, new_rd));
                        },
                        Err(e) => {
                            proof {
                                chain_next_grows(
                                    next_queue(q0, rem0, n0),
                                    rem0.skip(group_of(q0, rem0)),
                                    n0 + (q0.len() - taken_of(q0)),
                                );
                            }
                            return Err(e);
                        },
                    }
                    assert(chained@ =~= chained_of(q0, n0).take(i as int + 1 - taken));
                }
                rss.push(queue[i].1);
                assert(rds@ =~= echo_dests(q0, n0).take(i as int + 1));
                assert(rss@ =~= sources_of(q0).take(i as int + 1));
            }
            assert(rds@ =~= echo_dests(q0, n0));
            assert(rss@ =~= sources_of(q0));
            assert(chained@ =~= chained_of(q0, n0));
            result.push(make_echo(rds, rss));

            // The next echo receives as many newly delivered operands as the
            // chained operands leave queue capacity for, followed by the
            // chained operands themselves.
            let room: usize = QUEUE_CAPACITY - chained.len();
            let left: usize = ops.len() - pos;
            let group: usize = if left < room {
                left
            } else {
                room
            };
            let mut fresh_queue: Vec<(Reg, Reg)> = Vec::new();
            for i in 0..group
                invariant
                    pos + group <= ops.len(),
                    fresh_queue@ == ops@.subrange(pos as int, pos + i),
            {
                fresh_queue.push(ops[pos + i]);
                assert(fresh_queue@ =~= ops@.subrange(pos as int, pos + i + 1));
            }
            fresh_queue.append(&mut chained);
            queue = fresh_queue;
            pos = pos + group;
            proof {
                assert(queue@ =~= next_queue(q0, rem0, n0));
                assert(ops@.skip(pos as int) =~= rem0.skip(group_of(q0, rem0)));
                let rest = chain_from(queue@, ops@.skip(pos as int), vregs.next as int);
                let echo = echo_of(echo_dests(q0, n0), sources_of(q0));
                assert(chain_from(q0, rem0, n0).0 == seq![echo] + rest.0);
                assert(views(result@) =~= res0.push(echo));
                assert(whole.0 =~= views(result@) + rest.0);
            }
        }
        assert(views(result@) =~= whole.0);
        Ok(result)
    }
}

/// Which instruction of a receiving echo chain the operand at wire-order
/// position `wire_idx` must be delivered to.
pub open spec fn spec_delivery_group(wire_idx: int) -> int {
    if wire_idx < QUEUE_CAPACITY {
        0
    } else {
        1 + (wire_idx - QUEUE_CAPACITY) / 2
    }
}

/// Returns which instruction of a receiving echo chain the operand at
/// wire-order position `wire_idx` must be delivered to (0 meaning the chain's
/// first instruction, e.g. a block's first executed instruction).
///
/// The first echo has queue capacity for 4 delivered operands, every following
/// echo has 2 slots occupied by the previous echo's chained operands and so can
/// receive only 2.
pub fn delivery_group(wire_idx: usize) -> (r: usize)
    ensures
        r == spec_delivery_group(wire_idx as int),
{
    if wire_idx < QUEUE_CAPACITY {
        0
    } else {
        1 + (wire_idx - QUEUE_CAPACITY) / 2
    }
}

/// The slot among the uses of its receiving echo at which the operand at a
/// wire-order position arrives.
pub open spec fn delivery_slot(wire_idx: int) -> int {
    if wire_idx < QUEUE_CAPACITY {
        wire_idx
    } else {
        (wire_idx - QUEUE_CAPACITY) % 2
    }
}

/// An echo uses exactly the operands of its queue, in order.
proof fn echo_uses(rds: Seq<Reg>, rss: Seq<Reg>)
    requires
        rds.len() == rss.len(),
        rds.len() > 0,
    ensures
        echo_of(rds, rss).uses() == rss,
{
    assert(echo_of(rds, rss).uses() =~= rss);
}

/// A chain has one echo per two operands.
proof fn chain_from_len(queue: Seq<(Reg, Reg)>, remaining: Seq<(Reg, Reg)>, next: int)
    requires
        queue.len() <= QUEUE_CAPACITY,
        remaining.len() > 0 ==> queue.len() == QUEUE_CAPACITY,
    ensures
        chain_from(queue, remaining, next).0.len() == (queue.len() + remaining.len() + 1) / 2,
    decreases queue.len() + remaining.len(),
{
    if queue.len() > 0 {
        chain_from_len(
            next_queue(queue, remaining, next),
            remaining.skip(group_of(queue, remaining)),
            next + (queue.len() - taken_of(queue)),
        );
    }
}

/// In a full chain, the operands still to come arrive two per following echo.
proof fn chain_from_delivers(
    queue: Seq<(Reg, Reg)>,
    remaining: Seq<(Reg, Reg)>,
    next: int,
    i: int,
)
    requires
        queue.len() == QUEUE_CAPACITY,
        0 <= i < remaining.len(),
    ensures
        1 + i / 2 < chain_from(queue, remaining, next).0.len(),
        chain_from(queue, remaining, next).0[1 + i / 2].uses().len() > i % 2,
        chain_from(queue, remaining, next).0[1 + i / 2].uses()[i % 2] == remaining[i].1,
    decreases remaining.len(),
{
    let q1 = next_queue(queue, remaining, next);
    let r1 = remaining.skip(group_of(queue, remaining));
    let n1 = next + (queue.len() - taken_of(queue));
    let rest = chain_from(q1, r1, n1);
    let all = chain_from(queue, remaining, next);
    assert(all.0.len() == 1 + rest.0.len());
    assert(forall|k: int| 1 <= k < all.0.len() ==> all.0[k] == rest.0[k - 1]);
    if i < 2 {
        echo_uses(echo_dests(q1, n1), sources_of(q1));
        assert(rest.0[0] == echo_of(echo_dests(q1, n1), sources_of(q1)));
        assert(sources_of(q1)[i] == remaining[i].1);
    } else {
        assert(q1.len() == QUEUE_CAPACITY);
        chain_from_delivers(q1, r1, n1, i - 2);
        assert((i - 2) / 2 == i / 2 - 1);
        assert((i - 2) % 2 == i % 2);
        assert(r1[i - 2] == remaining[i]);
    }
}

/// A receiving chain has one echo per two operands, rounded up.
pub proof fn chain_length(ops: Seq<(Reg, Reg)>, next: int)
    ensures
        chain_of(ops, next).0.len() == (ops.len() + 1) / 2,
{
    chain_from_len(
        ops.take(first_group(ops.len() as int)),
        ops.skip(first_group(ops.len() as int)),
        next,
    );
}

/// The receiving chain mirrors the delivery schedule: the operand at every
/// wire-order position arrives at the echo that [`delivery_group`] names.
pub proof fn chain_mirrors_delivery(ops: Seq<(Reg, Reg)>, next: int, wire_idx: int)
    requires
        0 <= wire_idx < ops.len(),
    ensures
        spec_delivery_group(wire_idx) < chain_of(ops, next).0.len(),
        delivery_slot(wire_idx) < chain_of(ops, next).0[spec_delivery_group(
            wire_idx,
        )].uses().len(),
        chain_of(ops, next).0[spec_delivery_group(wire_idx)].uses()[delivery_slot(wire_idx)]
            == ops[wire_idx].1,
{
    let queue = ops.take(first_group(ops.len() as int));
    let remaining = ops.skip(first_group(ops.len() as int));
    if wire_idx < QUEUE_CAPACITY {
        echo_uses(echo_dests(queue, next), sources_of(queue));
        assert(chain_of(ops, next).0[0] == echo_of(echo_dests(queue, next), sources_of(queue)));
    } else {
        chain_from_delivers(queue, remaining, next, wire_idx - QUEUE_CAPACITY);
    }
}

/// Whether a register is none of those from index `next` on.
pub open spec fn older(r: Reg, next: int) -> bool {
    r matches Reg::Virtual(i) ==> i < next
}

proof fn chain_uses_head(queue: Seq<(Reg, Reg)>, remaining: Seq<(Reg, Reg)>, next: int)
    requires
        0 < queue.len() <= QUEUE_CAPACITY,
    ensures
        ({
            let all = chain_from(queue, remaining, next).0;
            let rest = chain_from(
                next_queue(queue, remaining, next),
                remaining.skip(group_of(queue, remaining)),
                next + (queue.len() - taken_of(queue)),
            ).0;
            &&& all.len() == 1 + rest.len()
            &&& all[0].uses() == sources_of(queue)
            &&& forall|e: int| 1 <= e < all.len() ==> #[trigger] all[e] == rest[e - 1]
        }),
{
    echo_uses(echo_dests(queue, next), sources_of(queue));
}

/// A register that is neither delivered nor fresh is not used by a chain.
proof fn chain_uses_no_other(
    queue: Seq<(Reg, Reg)>,
    remaining: Seq<(Reg, Reg)>,
    next: int,
    r: Reg,
    e: int,
    s: int,
)
    requires
        queue.len() <= QUEUE_CAPACITY,
        0 <= next,
        chain_from(queue, remaining, next).1 <= u32::MAX,
        older(r, next),
        forall|i: int| 0 <= i < queue.len() ==> (#[trigger] queue[i]).1 != r,
        forall|i: int| 0 <= i < remaining.len() ==> (#[trigger] remaining[i]).1 != r,
        0 <= e < chain_from(queue, remaining, next).0.len(),
        0 <= s < chain_from(queue, remaining, next).0[e].uses().len(),
    ensures
        chain_from(queue, remaining, next).0[e].uses()[s] != r,
    decreases queue.len() + remaining.len(),
{
    chain_uses_head(queue, remaining, next);
    if e > 0 {
        let q1 = next_queue(queue, remaining, next);
        let r1 = remaining.skip(group_of(queue, remaining));
        let n1 = next + (queue.len() - taken_of(queue));
        next_queue_without(queue, remaining, next, r);
        chain_uses_no_other(q1, r1, n1, r, e - 1, s);
    }
}

proof fn next_queue_without(
    queue: Seq<(Reg, Reg)>,
    remaining: Seq<(Reg, Reg)>,
    next: int,
    r: Reg,
)
    requires
        0 < queue.len() <= QUEUE_CAPACITY,
        0 <= next,
        chain_from(queue, remaining, next).1 <= u32::MAX,
        older(r, next),
        forall|i: int| 0 <= i < remaining.len() ==> (#[trigger] remaining[i]).1 != r,
    ensures
        ({
            let q1 = next_queue(queue, remaining, next);
            let r1 = remaining.skip(group_of(queue, remaining));
            &&& forall|i: int| 0 <= i < q1.len() ==> (#[trigger] q1[i]).1 != r
            &&& forall|i: int| 0 <= i < r1.len() ==> (#[trigger] r1[i]).1 != r
        }),
{
    let g = group_of(queue, remaining);
    let q1 = next_queue(queue, remaining, next);
    let r1 = remaining.skip(g);
    let n1 = next + (queue.len() - taken_of(queue));
    chain_next_grows(q1, r1, n1);
    assert forall|i: int| 0 <= i < q1.len() implies (#[trigger] q1[i]).1 != r by {
        if i < g {
            assert(q1[i] == remaining[i]);
        } else {
            assert(q1[i].1 == vreg(next + (i - g)));
        }
    }
    assert forall|i: int| 0 <= i < r1.len() implies (#[trigger] r1[i]).1 != r by {
        assert(r1[i] == remaining[g + i]);
    }
}

/// An operand in a chain's first queue is used there and nowhere else.
proof fn queued_used_once(
    queue: Seq<(Reg, Reg)>,
    remaining: Seq<(Reg, Reg)>,
    next: int,
    q: int,
    e: int,
    s: int,
)
    requires
        queue.len() <= QUEUE_CAPACITY,
        0 <= next,
        chain_from(queue, remaining, next).1 <= u32::MAX,
        0 <= q < queue.len(),
        older(queue[q].1, next),
        forall|i: int| 0 <= i < queue.len() && i != q ==> (#[trigger] queue[i]).1 != queue[q].1,
        forall|i: int| 0 <= i < remaining.len() ==> (#[trigger] remaining[i]).1 != queue[q].1,
        0 <= e < chain_from(queue, remaining, next).0.len(),
        0 <= s < chain_from(queue, remaining, next).0[e].uses().len(),
        chain_from(queue, remaining, next).0[e].uses()[s] == queue[q].1,
    ensures
        e == 0,
        s == q,
{
    let r = queue[q].1;
    chain_uses_head(queue, remaining, next);
    if e > 0 {
        next_queue_without(queue, remaining, next, r);
        chain_uses_no_other(
            next_queue(queue, remaining, next),
            remaining.skip(group_of(queue, remaining)),
            next + (queue.len() - taken_of(queue)),
            r,
            e - 1,
            s,
        );
    } else {
        assert(sources_of(queue)[s] == queue[s].1);
    }
}

/// An operand that is still to come is used by the echo that receives it and by
/// no other.
proof fn coming_used_once(
    queue: Seq<(Reg, Reg)>,
    remaining: Seq<(Reg, Reg)>,
    next: int,
    i: int,
    e: int,
    s: int,
)
    requires
        queue.len() == QUEUE_CAPACITY,
        0 <= next,
        chain_from(queue, remaining, next).1 <= u32::MAX,
        0 <= i < remaining.len(),
        older(remaining[i].1, next),
        forall|k: int| 0 <= k < queue.len() ==> (#[trigger] queue[k]).1 != remaining[i].1,
        forall|k: int|
            0 <= k < remaining.len() && k != i ==> (#[trigger] remaining[k]).1 != remaining[i].1,
        0 <= e < chain_from(queue, remaining, next).0.len(),
        0 <= s < chain_from(queue, remaining, next).0[e].uses().len(),
        chain_from(queue, remaining, next).0[e].uses()[s] == remaining[i].1,
    ensures
        e == 1 + i / 2,
        s == i % 2,
    decreases remaining.len(),
{
    let r = remaining[i].1;
    let g = group_of(queue, remaining);
    let q1 = next_queue(queue, remaining, next);
    let r1 = remaining.skip(g);
    let n1 = next + (queue.len() - taken_of(queue));
    chain_uses_head(queue, remaining, next);
    chain_next_grows(q1, r1, n1);
    if e == 0 {
        assert(sources_of(queue)[s] == queue[s].1);
    } else {
        assert forall|k: int| 0 <= k < q1.len() && k != i implies (#[trigger] q1[k]).1 != r by {
            if k < g {
                assert(q1[k] == remaining[k]);
            } else {
                assert(q1[k].1 == vreg(next + (k - g)));
            }
        }
        assert forall|k: int| 0 <= k < r1.len() && g + k != i implies (#[trigger] r1[k]).1 != r by {
            assert(r1[k] == remaining[g + k]);
        }
        if i < g {
            assert(q1[i] == remaining[i]);
            queued_used_once(q1, r1, n1, i, e - 1, s);
        } else {
            assert(r1[i - 2] == remaining[i]);
            coming_used_once(q1, r1, n1, i - 2, e - 1, s);
            assert((i - 2) / 2 == i / 2 - 1);
            assert((i - 2) % 2 == i % 2);
        }
    }
}

/// Where the delivered operands are distinct, the receiving chain uses each of
/// them once: by the echo and at the slot that it is delivered to.
pub proof fn chain_uses_operands_once(
    ops: Seq<(Reg, Reg)>,
    next: int,
    wire_idx: int,
    e: int,
    s: int,
)
    requires
        0 <= next,
        chain_of(ops, next).1 <= u32::MAX,
        forall|i: int| 0 <= i < ops.len() ==> older((#[trigger] ops[i]).1, next),
        forall|i: int, j: int|
            0 <= i < j < ops.len() ==> (#[trigger] ops[i]).1 != (#[trigger] ops[j]).1,
        0 <= wire_idx < ops.len(),
        0 <= e < chain_of(ops, next).0.len(),
        0 <= s < chain_of(ops, next).0[e].uses().len(),
        chain_of(ops, next).0[e].uses()[s] == ops[wire_idx].1,
    ensures
        e == spec_delivery_group(wire_idx),
        s == delivery_slot(wire_idx),
{
    let first = first_group(ops.len() as int);
    let queue = ops.take(first);
    let remaining = ops.skip(first);
    let r = ops[wire_idx].1;
    assert forall|i: int| 0 <= i < queue.len() && i != wire_idx implies (#[trigger] queue[i]).1
        != r by {
        assert(queue[i] == ops[i]);
    }
    assert forall|i: int|
        0 <= i < remaining.len() && first + i != wire_idx implies (#[trigger] remaining[i]).1 != r by {
        assert(remaining[i] == ops[first + i]);
    }
    if wire_idx < first {
        assert(queue[wire_idx] == ops[wire_idx]);
        queued_used_once(queue, remaining, next, wire_idx, e, s);
    } else {
        assert(remaining[wire_idx - first] == ops[wire_idx]);
        coming_used_once(queue, remaining, next, wire_idx - first, e, s);
    }
}

/// The routes of an echo: each pairs the register that it defines with the operand
/// that goes there. The first two are output, the rest is chained on.
pub open spec fn routes(inst: MInstView) -> Seq<(Reg, Reg)> {
    match inst {
        MInstOf::EchoLong { rds, rss, .. } => Seq::new(rds.len(), |i: int| (rds[i], rss[i])),
        MInstOf::EchoSplit { rd1, rd2, rs1, rs2, .. } => seq![(rd1, rs1), (rd2, rs2)],
        MInstOf::EchoChain { rd1, rd2, rs1, rs2, rd_chain, rs_chain, .. } => seq![
            (rd1, rs1),
            (rd2, rs2),
        ] + Seq::new(rd_chain.len(), |i: int| (rd_chain[i], rs_chain[i])),
        _ => Seq::empty(),
    }
}

/// Whether a chain carries the operand `r`, which arrives at its first echo, to the
/// destination `d`: it is output there, or chained on under a register that the
/// rest of the chain carries there.
pub open spec fn carries(chain: Seq<MInstView>, r: Reg, d: Reg) -> bool
    decreases chain.len(),
{
    chain.len() > 0 && exists|s: int|
        0 <= s < routes(chain[0]).len() && (#[trigger] routes(chain[0])[s]).1 == r && (if s < 2 {
            routes(chain[0])[s].0 == d
        } else {
            carries(chain.skip(1), routes(chain[0])[s].0, d)
        })
}

proof fn echo_routes(rds: Seq<Reg>, rss: Seq<Reg>)
    requires
        rds.len() == rss.len(),
        rds.len() > 0,
    ensures
        routes(echo_of(rds, rss)) == Seq::new(rds.len(), |i: int| (rds[i], rss[i])),
{
    assert(routes(echo_of(rds, rss)) =~= Seq::new(rds.len(), |i: int| (rds[i], rss[i])));
}

proof fn chain_parts(queue: Seq<(Reg, Reg)>, remaining: Seq<(Reg, Reg)>, next: int)
    requires
        0 < queue.len() <= QUEUE_CAPACITY,
    ensures
        ({
            let all = chain_from(queue, remaining, next).0;
            let rest = chain_from(
                next_queue(queue, remaining, next),
                remaining.skip(group_of(queue, remaining)),
                next + (queue.len() - taken_of(queue)),
            ).0;
            &&& all.len() == 1 + rest.len()
            &&& all.skip(1) == rest
            &&& forall|e: int| 1 <= e < all.len() ==> #[trigger] all[e] == rest[e - 1]
            &&& routes(all[0]) == Seq::new(
                queue.len(),
                |i: int| (echo_dests(queue, next)[i], queue[i].1),
            )
        }),
{
    let all = chain_from(queue, remaining, next).0;
    let rest = chain_from(
        next_queue(queue, remaining, next),
        remaining.skip(group_of(queue, remaining)),
        next + (queue.len() - taken_of(queue)),
    ).0;
    let rds = echo_dests(queue, next);
    let rss = sources_of(queue);
    echo_routes(rds, rss);
    assert(all == seq![echo_of(rds, rss)] + rest);
    assert(all.skip(1) =~= rest);
    assert(routes(all[0]) =~= Seq::new(queue.len(), |i: int| (rds[i], queue[i].1)));
}

/// An operand in a chain's first queue is carried to its destination.
proof fn queued_carried(queue: Seq<(Reg, Reg)>, remaining: Seq<(Reg, Reg)>, next: int, i: int)
    requires
        queue.len() <= QUEUE_CAPACITY,
        0 <= i < queue.len(),
    ensures
        carries(chain_from(queue, remaining, next).0, queue[i].1, queue[i].0),
    decreases queue.len() + remaining.len(),
{
    chain_parts(queue, remaining, next);
    let all = chain_from(queue, remaining, next).0;
    assert(routes(all[0])[i].1 == queue[i].1);
    if i >= 2 {
        let g = group_of(queue, remaining);
        let q1 = next_queue(queue, remaining, next);
        let r1 = remaining.skip(g);
        let n1 = next + (queue.len() - taken_of(queue));
        assert(q1[g + (i - 2)] == (queue[i].0, vreg(next + (i - 2))));
        queued_carried(q1, r1, n1, g + (i - 2));
    }
}

/// An operand that is still to come is carried on from the echo that receives it.
proof fn coming_carried(queue: Seq<(Reg, Reg)>, remaining: Seq<(Reg, Reg)>, next: int, i: int)
    requires
        queue.len() == QUEUE_CAPACITY,
        0 <= i < remaining.len(),
    ensures
        carries(
            chain_from(queue, remaining, next).0.skip(1 + i / 2),
            remaining[i].1,
            remaining[i].0,
        ),
    decreases remaining.len(),
{
    chain_parts(queue, remaining, next);
    let all = chain_from(queue, remaining, next).0;
    let g = group_of(queue, remaining);
    let q1 = next_queue(queue, remaining, next);
    let r1 = remaining.skip(g);
    let n1 = next + (queue.len() - taken_of(queue));
    if i < 2 {
        assert(q1[i] == remaining[i]);
        queued_carried(q1, r1, n1, i);
    } else {
        assert(r1[i - 2] == remaining[i]);
        coming_carried(q1, r1, n1, i - 2);
        chain_from_len(queue, remaining, next);
        let rest = chain_from(q1, r1, n1).0;
        assert(1 + (i - 2) / 2 == i / 2);
        assert(all.skip(1 + i / 2) =~= rest.skip(i / 2));
    }
}

/// The receiving chain carries every operand, from the echo that it is delivered
/// to, to its own destination.
pub proof fn chain_carries_operands(ops: Seq<(Reg, Reg)>, next: int, wire_idx: int)
    requires
        0 <= wire_idx < ops.len(),
    ensures
        carries(
            chain_of(ops, next).0.skip(spec_delivery_group(wire_idx)),
            ops[wire_idx].1,
            ops[wire_idx].0,
        ),
{
    let first = first_group(ops.len() as int);
    let queue = ops.take(first);
    let remaining = ops.skip(first);
    if wire_idx < first {
        assert(queue[wire_idx] == ops[wire_idx]);
        queued_carried(queue, remaining, next, wire_idx);
        assert(chain_of(ops, next).0.skip(0) =~= chain_of(ops, next).0);
    } else {
        assert(remaining[wire_idx - first] == ops[wire_idx]);
        coming_carried(queue, remaining, next, wire_idx - first);
    }
}

/// A register that a chain chains on is an operand of the following echo.
proof fn chained_from_received(
    queue: Seq<(Reg, Reg)>,
    remaining: Seq<(Reg, Reg)>,
    next: int,
    e: int,
    s: int,
)
    requires
        queue.len() <= QUEUE_CAPACITY,
        0 <= e < chain_from(queue, remaining, next).0.len(),
        2 <= s < routes(chain_from(queue, remaining, next).0[e]).len(),
    ensures
        ({
            let all = chain_from(queue, remaining, next).0;
            e + 1 < all.len() && all[e + 1].uses().contains(routes(all[e])[s].0)
        }),
    decreases queue.len() + remaining.len(),
{
    chain_parts(queue, remaining, next);
    let all = chain_from(queue, remaining, next).0;
    let g = group_of(queue, remaining);
    let q1 = next_queue(queue, remaining, next);
    let r1 = remaining.skip(g);
    let n1 = next + (queue.len() - taken_of(queue));
    if e == 0 {
        let r = vreg(next + (s - 2));
        assert(routes(all[0])[s].0 == r);
        assert(q1[g + (s - 2)].1 == r);
        chain_uses_head(q1, r1, n1);
        let rest = chain_from(q1, r1, n1).0;
        assert(all[1] == rest[0]);
        assert(sources_of(q1)[g + (s - 2)] == r);
    } else {
        chained_from_received(q1, r1, n1, e - 1, s);
    }
}

/// What a receiving chain chains on, the following echo receives.
pub proof fn chained_operands_are_received(ops: Seq<(Reg, Reg)>, next: int, e: int, s: int)
    requires
        0 <= e < chain_of(ops, next).0.len(),
        2 <= s < routes(chain_of(ops, next).0[e]).len(),
    ensures
        e + 1 < chain_of(ops, next).0.len(),
        chain_of(ops, next).0[e + 1].uses().contains(routes(chain_of(ops, next).0[e])[s].0),
{
    let first = first_group(ops.len() as int);
    chained_from_received(ops.take(first), ops.skip(first), next, e, s);
}

/// Whether a register is a destination of the operands.
spec fn is_dest(ops: Seq<(Reg, Reg)>, r: Reg) -> bool {
    exists|i: int| 0 <= i < ops.len() && (#[trigger] ops[i]).0 == r
}

/// Whether the destinations of two lists of operands are all different, and none is
/// fresh.
spec fn dests_distinct(queue: Seq<(Reg, Reg)>, remaining: Seq<(Reg, Reg)>, next: int) -> bool {
    &&& forall|i: int, j: int|
        0 <= i < j < queue.len() ==> (#[trigger] queue[i]).0 != (#[trigger] queue[j]).0
    &&& forall|i: int, j: int|
        0 <= i < j < remaining.len() ==> (#[trigger] remaining[i]).0 != (#[trigger] remaining[j]).0
    &&& forall|i: int, j: int|
        0 <= i < queue.len() && 0 <= j < remaining.len() ==> (#[trigger] queue[i]).0 != (
        #[trigger] remaining[j]).0
    &&& forall|i: int| 0 <= i < queue.len() ==> older((#[trigger] queue[i]).0, next)
    &&& forall|i: int| 0 <= i < remaining.len() ==> older((#[trigger] remaining[i]).0, next)
}

proof fn next_dests_distinct(queue: Seq<(Reg, Reg)>, remaining: Seq<(Reg, Reg)>, next: int)
    requires
        0 < queue.len() <= QUEUE_CAPACITY,
        dests_distinct(queue, remaining, next),
    ensures
        dests_distinct(
            next_queue(queue, remaining, next),
            remaining.skip(group_of(queue, remaining)),
            next + (queue.len() - taken_of(queue)),
        ),
{
    let g = group_of(queue, remaining);
    let t = taken_of(queue);
    let q1 = next_queue(queue, remaining, next);
    let r1 = remaining.skip(g);
    let n1 = next + (queue.len() - t);
    assert(forall|i: int| 0 <= i < g ==> #[trigger] q1[i] == remaining[i]);
    assert(forall|i: int| g <= i < q1.len() ==> (#[trigger] q1[i]).0 == queue[t + (i - g)].0);
    assert(forall|i: int| 0 <= i < r1.len() ==> #[trigger] r1[i] == remaining[g + i]);
    assert forall|i: int, j: int| 0 <= i < j < q1.len() implies (#[trigger] q1[i]).0 != (
    #[trigger] q1[j]).0 by {
        if i < g && j >= g {
            assert(queue[t + (j - g)].0 != remaining[i].0);
        } else if i >= g {
            assert(queue[t + (i - g)].0 != queue[t + (j - g)].0);
        }
    }
    assert forall|i: int, j: int| 0 <= i < q1.len() && 0 <= j < r1.len() implies (
    #[trigger] q1[i]).0 != (#[trigger] r1[j]).0 by {
        if i < g {
            assert(remaining[i].0 != remaining[g + j].0);
        } else {
            assert(queue[t + (i - g)].0 != remaining[g + j].0);
        }
    }
    assert forall|i: int| 0 <= i < q1.len() implies older((#[trigger] q1[i]).0, n1) by {
        if i < g {
            assert(older(remaining[i].0, next));
        } else {
            assert(older(queue[t + (i - g)].0, next));
        }
    }
    assert forall|i: int| 0 <= i < r1.len() implies older((#[trigger] r1[i]).0, n1) by {
        assert(older(remaining[g + i].0, next));
    }
}

/// Every register that a chain defines is a destination or fresh.
proof fn chain_defines(
    queue: Seq<(Reg, Reg)>,
    remaining: Seq<(Reg, Reg)>,
    next: int,
    e: int,
    s: int,
)
    requires
        queue.len() <= QUEUE_CAPACITY,
        0 <= next,
        chain_from(queue, remaining, next).1 <= u32::MAX,
        0 <= e < chain_from(queue, remaining, next).0.len(),
        0 <= s < routes(chain_from(queue, remaining, next).0[e]).len(),
    ensures
        ({
            let r = routes(chain_from(queue, remaining, next).0[e])[s].0;
            is_dest(queue, r) || is_dest(remaining, r) || !older(r, next)
        }),
    decreases queue.len() + remaining.len(),
{
    chain_parts(queue, remaining, next);
    let all = chain_from(queue, remaining, next).0;
    let g = group_of(queue, remaining);
    let t = taken_of(queue);
    let q1 = next_queue(queue, remaining, next);
    let r1 = remaining.skip(g);
    let n1 = next + (queue.len() - t);
    chain_next_grows(q1, r1, n1);
    let r = routes(all[e])[s].0;
    if e == 0 {
        if s < t {
            assert(queue[s].0 == r);
        } else {
            assert(r == vreg(next + s - t));
        }
    } else {
        chain_defines(q1, r1, n1, e - 1, s);
        if is_dest(q1, r) {
            let i = choose|i: int| 0 <= i < q1.len() && (#[trigger] q1[i]).0 == r;
            if i < g {
                assert(remaining[i].0 == r);
            } else {
                assert(queue[t + (i - g)].0 == r);
            }
        } else if is_dest(r1, r) {
            let i = choose|i: int| 0 <= i < r1.len() && (#[trigger] r1[i]).0 == r;
            assert(remaining[g + i].0 == r);
        }
    }
}

/// What the first echo of a chain defines, no later echo does.
proof fn head_defines_alone(
    queue: Seq<(Reg, Reg)>,
    remaining: Seq<(Reg, Reg)>,
    next: int,
    s: int,
    e: int,
    s2: int,
)
    requires
        queue.len() <= QUEUE_CAPACITY,
        0 <= next,
        chain_from(queue, remaining, next).1 <= u32::MAX,
        dests_distinct(queue, remaining, next),
        0 < e < chain_from(queue, remaining, next).0.len(),
        0 <= s < routes(chain_from(queue, remaining, next).0[0]).len(),
        0 <= s2 < routes(chain_from(queue, remaining, next).0[e]).len(),
    ensures
        ({
            let all = chain_from(queue, remaining, next).0;
            routes(all[0])[s].0 != routes(all[e])[s2].0
        }),
{
    chain_parts(queue, remaining, next);
    let all = chain_from(queue, remaining, next).0;
    let g = group_of(queue, remaining);
    let t = taken_of(queue);
    let q1 = next_queue(queue, remaining, next);
    let r1 = remaining.skip(g);
    let n1 = next + (queue.len() - t);
    chain_next_grows(q1, r1, n1);
    chain_defines(q1, r1, n1, e - 1, s2);
    let a = routes(all[0])[s].0;
    let b = routes(all[e])[s2].0;
    next_dests_distinct(queue, remaining, next);
    if is_dest(q1, b) {
        let i = choose|i: int| 0 <= i < q1.len() && (#[trigger] q1[i]).0 == b;
        if i < g {
            assert(q1[i] == remaining[i]);
            assert(older(remaining[i].0, next));
            if s < t {
                assert(queue[s].0 != remaining[i].0);
            }
        } else {
            assert(q1[i].0 == queue[t + (i - g)].0);
            assert(older(queue[t + (i - g)].0, next));
            if s < t {
                assert(queue[s].0 != queue[t + (i - g)].0);
            }
        }
    } else if is_dest(r1, b) {
        let i = choose|i: int| 0 <= i < r1.len() && (#[trigger] r1[i]).0 == b;
        assert(r1[i] == remaining[g + i]);
        assert(older(remaining[g + i].0, next));
        if s < t {
            assert(queue[s].0 != remaining[g + i].0);
        }
    } else {
        assert(!older(b, n1));
        if s < t {
            assert(older(queue[s].0, next));
        }
    }
}

proof fn chain_from_defines_once(
    queue: Seq<(Reg, Reg)>,
    remaining: Seq<(Reg, Reg)>,
    next: int,
    e1: int,
    s1: int,
    e2: int,
    s2: int,
)
    requires
        queue.len() <= QUEUE_CAPACITY,
        0 <= next,
        chain_from(queue, remaining, next).1 <= u32::MAX,
        dests_distinct(queue, remaining, next),
        0 <= e1 <= e2 < chain_from(queue, remaining, next).0.len(),
        0 <= s1 < routes(chain_from(queue, remaining, next).0[e1]).len(),
        0 <= s2 < routes(chain_from(queue, remaining, next).0[e2]).len(),
        routes(chain_from(queue, remaining, next).0[e1])[s1].0 == routes(
            chain_from(queue, remaining, next).0[e2],
        )[s2].0,
    ensures
        e1 == e2,
        s1 == s2,
    decreases queue.len() + remaining.len(),
{
    chain_parts(queue, remaining, next);
    let all = chain_from(queue, remaining, next).0;
    let t = taken_of(queue);
    let q1 = next_queue(queue, remaining, next);
    let r1 = remaining.skip(group_of(queue, remaining));
    let n1 = next + (queue.len() - t);
    chain_next_grows(q1, r1, n1);
    if e1 > 0 {
        next_dests_distinct(queue, remaining, next);
        chain_from_defines_once(q1, r1, n1, e1 - 1, s1, e2 - 1, s2);
    } else if e2 > 0 {
        head_defines_alone(queue, remaining, next, s1, e2, s2);
    } else if s1 != s2 {
        let a = echo_dests(queue, next)[s1];
        let b = echo_dests(queue, next)[s2];
        assert(routes(all[0])[s1].0 == a && routes(all[0])[s2].0 == b);
        if s1 < t {
            assert(older(queue[s1].0, next));
        }
        if s2 < t {
            assert(older(queue[s2].0, next));
        }
        if s1 < s2 {
            assert(queue[s1].0 != queue[s2].0);
        } else {
            assert(queue[s2].0 != queue[s1].0);
        }
    }
}

/// Where the destinations are distinct, a receiving chain defines every register
/// once.
pub proof fn chain_defines_registers_once(
    ops: Seq<(Reg, Reg)>,
    next: int,
    e1: int,
    s1: int,
    e2: int,
    s2: int,
)
    requires
        0 <= next,
        chain_of(ops, next).1 <= u32::MAX,
        forall|i: int| 0 <= i < ops.len() ==> older((#[trigger] ops[i]).0, next),
        forall|i: int, j: int|
            0 <= i < j < ops.len() ==> (#[trigger] ops[i]).0 != (#[trigger] ops[j]).0,
        0 <= e1 < chain_of(ops, next).0.len(),
        0 <= e2 < chain_of(ops, next).0.len(),
        0 <= s1 < routes(chain_of(ops, next).0[e1]).len(),
        0 <= s2 < routes(chain_of(ops, next).0[e2]).len(),
        routes(chain_of(ops, next).0[e1])[s1].0 == routes(chain_of(ops, next).0[e2])[s2].0,
    ensures
        e1 == e2,
        s1 == s2,
{
    let first = first_group(ops.len() as int);
    let queue = ops.take(first);
    let remaining = ops.skip(first);
    assert(forall|i: int| 0 <= i < queue.len() ==> #[trigger] queue[i] == ops[i]);
    assert(forall|i: int| 0 <= i < remaining.len() ==> #[trigger] remaining[i] == ops[first + i]);
    assert forall|i: int, j: int| 0 <= i < queue.len() && 0 <= j < remaining.len() implies (
    #[trigger] queue[i]).0 != (#[trigger] remaining[j]).0 by {
        assert(ops[i].0 != ops[first + j].0);
    }
    if e1 <= e2 {
        chain_from_defines_once(queue, remaining, next, e1, s1, e2, s2);
    } else {
        chain_from_defines_once(queue, remaining, next, e2, s2, e1, s1);
    }
}

} // verus!
