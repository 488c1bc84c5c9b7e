//! Echo chains.
use scry_backend::chain::delivery_group;
use scry_backend::inst::MInst;
use scry_backend::reg::{CodegenError, Reg, VRegAllocator, VREG_LIMIT};

fn v(i: u32) -> Reg {
    Reg::Virtual(i)
}

fn ops(n: u32) -> Vec<(Reg, Reg)> {
    (0..n).map(|i| (v(i), v(50 + i))).collect()
}

fn chain(n: u32) -> Vec<String> {
    let mut vregs = VRegAllocator { next: 100 };
    MInst::receive_chain(&ops(n), &mut vregs)
        .unwrap()
        .iter()
        .map(|i| i.print_with_state())
        .collect()
}

#[test]
fn small_queues_need_one_echo() {
    assert_eq!(chain(0), Vec::<String>::new());
    assert_eq!(chain(1), vec!["EchoLong(rds:, v(0), rss:, v(50), out: 0, )"]);
    assert_eq!(
        chain(2),
        vec!["EchoSplit(rd1:, v(0), rd2:, v(1), rs1:, v(50), rs2:, v(51), out1: 0, out2: 0, )"]
    );
}

#[test]
fn further_operands_are_chained() {
    assert_eq!(
        chain(3),
        vec![
            "EchoChain(rd1:, v(0), rd2:, v(1), rs1:, v(50), rs2:, v(51), out1: 0, out2: 0, \
             rd_chain:, v(100), rs_chain:, v(52), )",
            "EchoLong(rds:, v(2), rss:, v(100), out: 0, )",
        ]
    );
    // The fifth operand arrives before the chained ones at the second echo.
    assert_eq!(
        chain(5)[1],
        "EchoChain(rd1:, v(4), rd2:, v(2), rs1:, v(54), rs2:, v(100), out1: 0, out2: 0, \
         rd_chain:, v(102), rs_chain:, v(101), )"
    );
    for n in 0..12 {
        assert_eq!(chain(n).len() as u32, (n + 1) / 2);
    }
}

#[test]
fn operands_are_delivered_in_groups() {
    let groups: Vec<usize> = (0..9).map(delivery_group).collect();
    assert_eq!(groups, vec![0, 0, 0, 0, 1, 1, 2, 2, 3]);
}

#[test]
fn chains_fail_where_registers_run_out() {
    let mut vregs = VRegAllocator { next: VREG_LIMIT };
    assert!(MInst::receive_chain(&ops(2), &mut vregs).is_ok());
    assert!(matches!(
        MInst::receive_chain(&ops(3), &mut vregs),
        Err(CodegenError::CodeTooLarge)
    ));
}

#[test]
fn each_operand_is_used_by_one_echo() {
    let mut vregs = VRegAllocator { next: 100 };
    let echoes = MInst::receive_chain(&ops(9), &mut vregs).unwrap();
    for i in 0..9 {
        let used: Vec<usize> = (0..echoes.len())
            .filter(|e| echoes[*e].get_uses().contains(&v(50 + i)))
            .collect();
        assert_eq!(used, vec![delivery_group(i as usize)]);
    }
}

#[test]
fn each_operand_reaches_its_destination() {
    let mut vregs = VRegAllocator { next: 100 };
    let echoes = MInst::receive_chain(&ops(9), &mut vregs).unwrap();
    let routes = |inst: &MInst| match inst {
        MInst::EchoLong { rds, rss, .. } => vec![(rds[0], rss[0])],
        MInst::EchoSplit { rd1, rd2, rs1, rs2, .. } => vec![(*rd1, *rs1), (*rd2, *rs2)],
        MInst::EchoChain { rd1, rd2, rs1, rs2, rd_chain, rs_chain, .. } => {
            let mut r = vec![(*rd1, *rs1), (*rd2, *rs2)];
            r.extend(rd_chain.iter().copied().zip(rs_chain.iter().copied()));
            r
        }
        _ => panic!("not an echo"),
    };
    let mut defined = vec![];
    for (e, echo) in echoes.iter().enumerate() {
        for (s, (rd, _)) in routes(echo).into_iter().enumerate() {
            assert!(!defined.contains(&rd));
            defined.push(rd);
            if s >= 2 {
                assert!(echoes[e + 1].get_uses().contains(&rd));
            }
        }
    }
    for i in 0..9 {
        let mut at = v(50 + i);
        let mut e = delivery_group(i as usize);
        loop {
            let r = routes(&echoes[e]);
            let s = r.iter().position(|(_, rs)| *rs == at).unwrap();
            at = r[s].0;
            if s < 2 {
                break;
            }
            e += 1;
        }
        assert_eq!(at, v(i));
    }
}
