//! The control-flow graph and the passes over it.
use scry_backend::bb::VCodeBB;
use scry_backend::cfg::VCodeCFG;
use scry_backend::inst::{IssueKind, MInst};
use scry_backend::ir::Signature;
use scry_backend::issues::get_jmp_issues;
use scry_backend::layout::{block_exit, BlockExit};
use scry_backend::passes::branches::fix_branch_conditions;
use scry_backend::passes::capacities::assert_queue_capacities;
use scry_backend::passes::distances::insert_ref_distances;
use scry_backend::passes::duplicates::insert_duplicates;
use scry_backend::passes::echoes::expand_echoes;
use scry_backend::passes::far_jumps::widen_far_jumps;
use scry_backend::passes::frame::{adjust_chunks, insert_frame_limits};
use scry_backend::passes::live_ins::make_live_ins_explicit;
use scry_backend::passes::orderings::fix_orderings;
use scry_backend::passes::params::prepare_block_params;
use scry_backend::passes::rets::insert_rets;
use scry_backend::passes::triggers::set_trigger_offsets;
use scry_backend::reg::{ArgPair, Block, CodegenError, MachLabel, Reg, VRegAllocator, VREG_LIMIT};
use scry_backend::vcode::{VCode, VCodeBlock};

fn v(i: u32) -> Reg {
    Reg::Virtual(i)
}

fn pair(i: u32) -> ArgPair {
    ArgPair { vreg: v(i), preg: v(i) }
}

fn block(insts: Vec<MInst>, params: Vec<Reg>, succs: Vec<(u32, Vec<Reg>)>) -> VCodeBlock {
    VCodeBlock {
        params,
        insts,
        succs: succs.into_iter().map(|(b, r)| (Block { index: b }, r)).collect(),
    }
}

fn jump(link: u32, dst: u32) -> Vec<MInst> {
    vec![
        MInst::JumpIssue {
            link: v(link),
            dst: MachLabel { index: dst },
            kind: IssueKind::Jump,
            trig: 0,
        },
        MInst::JumpTrigger { link: v(link), args: vec![] },
    ]
}

fn branch(link: u32, dst: u32, cond: u32) -> Vec<MInst> {
    vec![
        MInst::JumpIssue {
            link: v(link),
            dst: MachLabel { index: dst },
            kind: IssueKind::Branch { dir: false, cond: v(cond) },
            trig: 0,
        },
        MInst::JumpTrigger { link: v(link), args: vec![] },
    ]
}

fn vregs() -> VRegAllocator {
    VRegAllocator { next: 100 }
}

fn graph(blocks: Vec<VCodeBlock>) -> VCodeCFG {
    let vcode = VCode { blocks, entry: Block { index: 0 } };
    VCodeCFG::from_vcode(&vcode, &mut vregs()).unwrap()
}

fn single(insts: Vec<MInst>) -> VCodeCFG {
    graph(vec![block(insts, vec![], vec![])])
}

fn texts(bb: &VCodeBB) -> Vec<String> {
    bb.inst.iter().map(|i| i.print_with_state()).collect()
}

/// A loop: 0 -> 1 -> (1 again by way of 3 | 2).
fn looping() -> Vec<VCodeBlock> {
    vec![
        block(jump(50, 1), vec![], vec![(1, vec![])]),
        block(branch(51, 3, 40), vec![], vec![(3, vec![]), (2, vec![])]),
        block(vec![MInst::Rets { rets: vec![] }], vec![], vec![]),
        block(vec![MInst::ImmJump { dst: MachLabel { index: 1 } }], vec![], vec![(1, vec![])]),
        // Not reachable.
        block(jump(52, 2), vec![], vec![(2, vec![])]),
    ]
}

#[test]
fn the_graph_has_the_reachable_blocks_in_the_order_they_are_found() {
    let cfg = graph(looping());
    let blocks: Vec<u32> = cfg.blocks.iter().map(|b| b.vcode_bb.index).collect();
    assert_eq!(blocks, vec![0, 1, 3, 2]);
    assert_eq!(cfg.root, 0);
    assert_eq!(cfg.successors(1), vec![2, 3]);
    assert_eq!(cfg.predecessors(1), vec![0, 2]);
    assert_eq!(cfg.predecessors(0), Vec::<usize>::new());
    assert_eq!(cfg.vertex_of_block(Block { index: 2 }), Some(3));
    assert_eq!(cfg.vertex_of_block(Block { index: 4 }), None);
}

#[test]
fn edge_blocks_are_promoted() {
    let blocks = vec![
        block(branch(51, 1, 40), vec![], vec![(1, vec![]), (2, vec![])]),
        block(
            vec![MInst::ImmJump { dst: MachLabel { index: 3 } }],
            vec![],
            vec![(3, vec![v(7), v(8)])],
        ),
        block(jump(52, 3), vec![], vec![(3, vec![v(7), v(7)])]),
        block(vec![MInst::Rets { rets: vec![] }], vec![v(20), v(21)], vec![]),
    ];
    let cfg = graph(blocks);
    assert_eq!(cfg.find_unnecessary_block(), None);
    let edge = &cfg.blocks[1];
    assert_eq!(edge.params, vec![v(100), v(101)]);
    assert_eq!(
        texts(edge),
        vec![
            "JumpIssue(link:, v(102), kind: Jump, dst: MachLabel(3), trig: 0, )",
            "JumpTrigger(link:, v(102), args:, v(100), v(101), )",
        ]
    );
    // The predecessor passes what the edge block passed.
    assert_eq!(cfg.blocks[0].branch_params[0], (Block { index: 1 }, vec![v(7), v(8)]));
    let flows = cfg.dataflow_graph().unwrap();
    let named: Vec<(usize, usize, usize, Reg, Reg)> =
        flows.iter().map(|f| (f.src, f.sink, f.idx, f.out, f.into)).collect();
    assert_eq!(
        named,
        vec![
            (0, 1, 0, v(7), v(100)),
            (0, 1, 1, v(8), v(101)),
            (1, 3, 0, v(100), v(20)),
            (1, 3, 1, v(101), v(21)),
            (2, 3, 0, v(7), v(20)),
            (2, 3, 1, v(7), v(21)),
        ]
    );
}

#[test]
fn an_edge_block_with_parameters_is_refused() {
    let vcode = VCode {
        blocks: vec![
            block(jump(51, 1), vec![], vec![(1, vec![v(1)])]),
            block(
                vec![MInst::ImmJump { dst: MachLabel { index: 2 } }],
                vec![v(9)],
                vec![(2, vec![])],
            ),
            block(vec![MInst::Rets { rets: vec![] }], vec![], vec![]),
        ],
        entry: Block { index: 0 },
    };
    assert!(matches!(
        VCodeCFG::from_vcode(&vcode, &mut vregs()),
        Err(CodegenError::Malformed)
    ));
}

#[test]
fn a_branch_is_followed_by_its_other_successor() {
    let cfg = graph(looping());
    // Block 1 branches to block 3, so block 2 comes right behind it.
    assert_eq!(cfg.compute_layout().unwrap(), vec![0, 1, 3, 2]);
    assert_eq!(block_exit(&cfg.blocks[1]).unwrap(), Some(BlockExit::Branch(Block { index: 3 })));
    assert_eq!(block_exit(&cfg.blocks[0]).unwrap(), Some(BlockExit::Jump(Block { index: 1 })));
    assert_eq!(block_exit(&cfg.blocks[3]).unwrap(), None);
}

#[test]
fn a_shared_fall_through_is_refused() {
    let cfg = graph(vec![
        block(branch(51, 1, 40), vec![], vec![(1, vec![]), (2, vec![])]),
        block(branch(52, 0, 41), vec![], vec![(0, vec![]), (2, vec![])]),
        block(vec![MInst::Rets { rets: vec![] }], vec![], vec![]),
    ]);
    assert!(matches!(cfg.compute_layout(), Err(CodegenError::Malformed)));
}

#[test]
fn labels_are_corrected_to_the_layout() {
    let cfg = graph(looping());
    let code = cfg.build_vcode().unwrap();
    assert_eq!(code.len(), 4);
    let first = code[1][0].print_with_state();
    // Block 3 is laid out last.
    assert_eq!(
        first,
        "JumpIssue(link:, v(51), kind: Branch(dir: false, cond: v(40)), dst: MachLabel(3), trig: 0, )"
    );
    assert_eq!(
        code[3][0].print_with_state(),
        "JumpIssue(link:, v(100), kind: Jump, dst: MachLabel(1), trig: 0, )"
    );
}

#[test]
fn issues_share_their_trigger() {
    let mut insts = branch(51, 1, 40);
    insts.insert(0, MInst::Nop);
    let mut cfg = single(vec![MInst::Nop]);
    cfg.blocks[0].inst = insts;
    assert_eq!(get_jmp_issues(&cfg.blocks[0]), Some((vec![1], 2)));
    cfg.blocks[0].inst = vec![MInst::Nop];
    assert_eq!(get_jmp_issues(&cfg.blocks[0]), None);
    // An issue behind its trigger.
    let mut wrong = jump(51, 1);
    wrong.reverse();
    cfg.blocks[0].inst = wrong;
    assert!(block_exit(&cfg.blocks[0]).is_err());
}

#[test]
fn uses_and_definitions_are_found() {
    let cfg = single(vec![
        MInst::Args { args: vec![pair(1), pair(2)] },
        MInst::Discard { rss: vec![v(1), v(1), v(2)] },
    ]);
    let bb = &cfg.blocks[0];
    assert_eq!(bb.reg_uses(v(1)), vec![1, 1]);
    assert_eq!(bb.reg_defs(v(2)), vec![0]);
    assert_eq!(bb.inst_defs(), vec![(0, v(1)), (0, v(2))]);
}

#[test]
fn values_of_other_blocks_become_parameters() {
    let mut first = vec![MInst::Args { args: vec![pair(1)] }];
    first.extend(jump(51, 1));
    let mut last = vec![MInst::Discard { rss: vec![v(1)] }];
    last.push(MInst::Rets { rets: vec![] });
    let cfg = graph(vec![
        block(first, vec![], vec![(1, vec![])]),
        block(jump(52, 2), vec![], vec![(2, vec![])]),
        block(last, vec![], vec![]),
    ]);
    let cfg = make_live_ins_explicit(cfg, &mut vregs()).unwrap();
    // The middle block receives the value and passes it on.
    assert_eq!(cfg.blocks[0].params, vec![]);
    assert_eq!(cfg.blocks[1].params, vec![v(100)]);
    assert_eq!(cfg.blocks[2].params, vec![v(101)]);
    assert_eq!(cfg.blocks[0].branch_params[0].1, vec![v(1)]);
    assert_eq!(cfg.blocks[1].branch_params[0].1, vec![v(100)]);
    assert_eq!(texts(&cfg.blocks[2])[0], "Discard(rss:, v(101), )");
}

#[test]
fn values_that_are_only_passed_on_become_parameters() {
    let mut first = vec![MInst::Args { args: vec![pair(1)] }];
    first.extend(jump(51, 1));
    let cfg = graph(vec![
        block(first, vec![], vec![(1, vec![])]),
        block(jump(52, 2), vec![], vec![(2, vec![v(1)])]),
        block(vec![MInst::Rets { rets: vec![pair(7)] }], vec![v(7)], vec![]),
    ]);
    let cfg = make_live_ins_explicit(cfg, &mut vregs()).unwrap();
    assert_eq!(cfg.blocks[1].params, vec![v(100)]);
    assert_eq!(cfg.blocks[2].params, vec![v(7)]);
    assert_eq!(cfg.blocks[0].branch_params[0].1, vec![v(1)]);
    assert_eq!(cfg.blocks[1].branch_params[0].1, vec![v(100)]);
}

#[test]
fn parameters_are_received_by_echoes() {
    let mut first = vec![MInst::Args { args: vec![ArgPair { vreg: v(1), preg: Reg::Real(1) }] }];
    first.extend(jump(51, 1));
    let cfg = graph(vec![
        block(first, vec![], vec![(1, vec![v(1)])]),
        block(vec![MInst::Rets { rets: vec![pair(7)] }], vec![v(7)], vec![]),
    ]);
    let p = scry_backend::ir::AbiParam {
        value_type: scry_backend::ir::Type::I32,
        purpose: scry_backend::ir::ArgumentPurpose::Normal,
        extension: scry_backend::ir::ArgumentExtension::NoExt,
    };
    let sig = Signature { params: vec![p, p], rets: vec![] };
    let cfg = prepare_block_params(cfg, &sig, &mut vregs()).unwrap();
    assert_eq!(
        texts(&cfg.blocks[0]),
        vec![
            // The first parameter is unused.
            "Args(v(100), v(1), )",
            "Echo(rds:, v(101), v(102), rss:, v(100), v(1), )",
            "Discard(rss:, v(101), )",
            "JumpIssue(link:, v(51), kind: Jump, dst: MachLabel(1), trig: 0, )",
            "JumpTrigger(link:, v(51), args:, v(102), )",
        ]
    );
    assert_eq!(
        texts(&cfg.blocks[1]),
        vec!["Args(v(7), )", "Echo(rds:, v(103), rss:, v(7), )", "Rets(v(103), )"]
    );
    let cfg = insert_rets(cfg, &mut vregs()).unwrap();
    assert_eq!(texts(&cfg.blocks[1])[2], "Ret(trig: 0, )");
}

#[test]
fn values_used_twice_are_duplicated() {
    let cfg = single(vec![
        MInst::Args { args: vec![pair(1)] },
        MInst::Discard { rss: vec![v(1)] },
        MInst::Discard { rss: vec![v(1)] },
    ]);
    let cfg = insert_duplicates(cfg, &mut vregs()).unwrap();
    assert_eq!(
        texts(&cfg.blocks[0]),
        vec![
            "Args(v(1), )",
            "Duplicate(rd1:, v(100), rd2:, v(101), rs:, v(1), out1: 0, out2: 0, )",
            "Discard(rss:, v(100), )",
            "Discard(rss:, v(101), )",
        ]
    );
    let mut spent = VRegAllocator { next: VREG_LIMIT };
    let again = single(vec![
        MInst::Args { args: vec![pair(1)] },
        MInst::Discard { rss: vec![v(1), v(1)] },
    ]);
    assert!(matches!(insert_duplicates(again, &mut spent), Err(CodegenError::CodeTooLarge)));
}

#[test]
fn operands_in_the_wrong_order_are_reordered() {
    let cfg = single(vec![
        MInst::Args { args: vec![pair(1), pair(2)] },
        MInst::Store { rd: v(1), rs: v(2) },
    ]);
    let cfg = fix_orderings(cfg, &mut vregs()).unwrap();
    assert_eq!(
        texts(&cfg.blocks[0]),
        vec![
            "Args(v(1), v(2), )",
            "Reorder(rd1:, v(100), rd2:, v(101), rs1:, v(1), rs2:, v(2), out: 0, )",
            "Store(rs:, v(101), rd:, v(100), )",
        ]
    );
    let undefined = single(vec![MInst::Store { rd: v(1), rs: v(2) }]);
    assert!(matches!(fix_orderings(undefined, &mut vregs()), Err(CodegenError::Malformed)));
}

#[test]
fn echoes_are_expanded() {
    let cfg = single(vec![MInst::Echo { rds: vec![v(1)], rss: vec![v(2)] }, MInst::Nop]);
    let cfg = expand_echoes(cfg, &mut vregs()).unwrap();
    assert_eq!(
        texts(&cfg.blocks[0]),
        vec!["EchoLong(rds:, v(1), rss:, v(2), out: 0, )", "Nop"]
    );
}

#[test]
fn references_are_distances() {
    let cfg = single(vec![
        MInst::Args { args: vec![pair(1)] },
        MInst::EchoLong { rds: vec![v(2)], rss: vec![v(1)], out: 0 },
        MInst::Nop,
        MInst::Nop,
        MInst::Discard { rss: vec![v(2)] },
    ]);
    let cfg = insert_ref_distances(cfg, &mut vregs()).unwrap();
    assert_eq!(texts(&cfg.blocks[0])[1], "EchoLong(rds:, v(2), rss:, v(1), out: 2, )");
}

#[test]
fn values_without_a_consumer_are_discarded() {
    let cfg = single(vec![MInst::Args { args: vec![pair(1)] }, MInst::Nop]);
    let cfg = insert_ref_distances(cfg, &mut vregs()).unwrap();
    assert_eq!(texts(&cfg.blocks[0]), vec!["Args(v(1), )", "Discard(rss:, v(1), )", "Nop"]);
}

#[test]
fn constants_are_carried_on_by_echoes() {
    let cfg = single(vec![
        MInst::SAddr { rd: v(1), scale_pow2: 0, idx: 3 },
        MInst::Nop,
        MInst::Discard { rss: vec![v(1)] },
    ]);
    let cfg = insert_ref_distances(cfg, &mut vregs()).unwrap();
    assert_eq!(
        texts(&cfg.blocks[0]),
        vec![
            "SAddr(rd:, v(1), scale_pow2: 0, idx: 3, )",
            "EchoLong(rds:, v(100), rss:, v(1), out: 1, )",
            "Nop",
            "Discard(rss:, v(100), )",
        ]
    );
}

#[test]
fn far_references_are_carried_on_by_echoes() {
    let mut insts = vec![
        MInst::Args { args: vec![pair(1)] },
        MInst::UnaryAlu {
            op: scry_backend::inst::UnaryAluOp::LogNeg,
            rd: v(2),
            rs: v(1),
            out: 0,
        },
    ];
    for _ in 0..40 {
        insts.push(MInst::Nop);
    }
    insts.push(MInst::Discard { rss: vec![v(2)] });
    let cfg = insert_ref_distances(single(insts), &mut vregs()).unwrap();
    assert_eq!(
        texts(&cfg.blocks[0])[2],
        "EchoLong(rds:, v(100), rss:, v(2), out: 40, )"
    );
}

#[test]
fn queues_must_hold_what_is_delivered() {
    let args: Vec<ArgPair> = (0..5).map(pair).collect();
    let all: Vec<Reg> = (0..5).map(v).collect();
    let cfg = single(vec![MInst::Args { args }, MInst::Discard { rss: all.clone() }]);
    assert!(matches!(assert_queue_capacities(&cfg), Err(CodegenError::Malformed)));
    // What leaves the block is not counted.
    let args: Vec<ArgPair> = (0..5).map(pair).collect();
    let cfg = single(vec![MInst::Args { args }, MInst::JumpTrigger { link: v(9), args: all }]);
    assert!(assert_queue_capacities(&cfg).is_ok());
}

#[test]
fn forward_branches_are_negated() {
    let cfg = graph(vec![
        block(branch(51, 2, 40), vec![], vec![(2, vec![]), (1, vec![])]),
        block(vec![MInst::Rets { rets: vec![] }], vec![], vec![]),
        block(vec![MInst::Rets { rets: vec![] }], vec![], vec![]),
    ]);
    let cfg = fix_branch_conditions(cfg, &mut vregs()).unwrap();
    assert_eq!(
        texts(&cfg.blocks[0])[..2],
        [
            "UnaryAlu(op: LogNeg, rd:, v(100), rs:, v(40), )",
            "JumpIssue(link:, v(51), kind: Branch(dir: true, cond: v(100)), dst: MachLabel(2), trig: 0, )",
        ]
    );
}

#[test]
fn backward_branches_keep_their_conditions() {
    let cfg = graph(vec![
        block(jump(50, 1), vec![], vec![(1, vec![])]),
        block(branch(51, 1, 40), vec![], vec![(1, vec![]), (2, vec![])]),
        block(vec![MInst::Rets { rets: vec![] }], vec![], vec![]),
    ]);
    let cfg = fix_branch_conditions(cfg, &mut vregs()).unwrap();
    assert_eq!(
        texts(&cfg.blocks[1])[0],
        "JumpIssue(link:, v(51), kind: Branch(dir: false, cond: v(40)), dst: MachLabel(1), trig: 0, )"
    );
}

#[test]
fn trigger_offsets_count_instructions() {
    let mut insts = jump(51, 0);
    insts.insert(1, MInst::Nop);
    insts.insert(1, MInst::Nop);
    let cfg = graph(vec![block(insts, vec![], vec![(0, vec![])])]);
    let cfg = set_trigger_offsets(cfg, &mut vregs()).unwrap();
    assert_eq!(
        texts(&cfg.blocks[0])[0],
        "JumpIssue(link:, v(51), kind: Jump, dst: MachLabel(0), trig: 2, )"
    );
    let mut far = jump(51, 0);
    for _ in 0..64 {
        far.insert(1, MInst::Nop);
    }
    let cfg = graph(vec![block(far, vec![], vec![(0, vec![])])]);
    assert!(matches!(set_trigger_offsets(cfg, &mut vregs()), Err(CodegenError::Malformed)));
}

#[test]
fn frames_are_reserved_and_freed_by_powers_of_two() {
    let amounts: Vec<String> =
        adjust_chunks(0x35, true, false).iter().map(|i| i.print_with_state()).collect();
    let chunk = |k: u16| {
        MInst::StackAdjust { reserve: true, private: false, amount_pow2: k }.print_with_state()
    };
    assert_eq!(amounts, vec![chunk(0), chunk(2), chunk(4), chunk(5)]);
    let cfg = single(vec![
        MInst::Args { args: vec![] },
        MInst::Nop,
        MInst::Ret { trig: 0 },
        MInst::Rets { rets: vec![] },
    ]);
    let cfg = insert_frame_limits(cfg, 48, &mut vregs()).unwrap();
    let adjust = |reserve, private, amount_pow2| {
        MInst::StackAdjust { reserve, private, amount_pow2 }.print_with_state()
    };
    assert_eq!(
        texts(&cfg.blocks[0]),
        vec![
            "Args()".to_string(),
            adjust(true, true, 4),
            adjust(true, true, 5),
            "Nop".to_string(),
            adjust(false, false, 4),
            adjust(false, false, 5),
            "Ret(trig: 0, )".to_string(),
            "Rets()".to_string(),
        ]
    );
}

#[test]
fn fixing_and_widening_keep_the_layout() {
    let mut leave: Vec<MInst> = (0..200).map(|_| MInst::Nop).collect();
    leave.extend(jump(53, 2));
    let cfg = graph(vec![
        block(branch(51, 2, 40), vec![], vec![(2, vec![]), (1, vec![])]),
        block(leave, vec![], vec![(2, vec![])]),
        block(vec![MInst::Rets { rets: vec![] }], vec![], vec![]),
    ]);
    let blocks: Vec<u32> = cfg.blocks.iter().map(|b| b.vcode_bb.index).collect();
    assert_eq!(blocks, vec![0, 2, 1]);
    // The branch falls through to block 1.
    let layout = vec![0, 2, 1];
    assert_eq!(cfg.compute_layout().unwrap(), layout);
    let mut regs = vregs();
    let cfg = fix_branch_conditions(cfg, &mut regs).unwrap();
    assert_eq!(cfg.compute_layout().unwrap(), layout);
    let (cfg, changed) = widen_far_jumps(cfg, &mut regs).unwrap();
    assert!(changed);
    assert_eq!(cfg.compute_layout().unwrap(), layout);
    // A negation, the offset's chain, the issue and the trigger.
    assert_eq!(cfg.blocks[0].inst.len(), 4);
    assert!(matches!(cfg.blocks[0].inst[1], MInst::JumpOffset { size_pow2: 1, .. }));
    let (cfg, changed) = widen_far_jumps(cfg, &mut regs).unwrap();
    assert!(!changed);
    assert_eq!(cfg.compute_layout().unwrap(), layout);
}
