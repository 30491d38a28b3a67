use std::collections::BTreeSet;

use n0xis_core::arch::FrameInfo;
use n0xis_core::dom::{
    block_graph, dom_children, dominance_frontier, dominators_fwd, dominators_rev, immediate_doms, reachable_from_entry,
};
use n0xis_core::ir::{CfgArtifact, CfgBlock, CfgStats, Successor};
use n0xis_core::va::Va;

#[test]
fn diamond_cfg_frontier_and_idom() {
    let pred = vec![vec![], vec![0], vec![0], vec![1, 2]];
    let dom = dominators_fwd(4, &pred);
    let idom = immediate_doms(&dom);
    assert_eq!(idom, vec![None, Some(0), Some(0), Some(0)]);
    let df = dominance_frontier(4, &pred, &idom);
    assert_eq!(df[1], BTreeSet::from([3]));
    assert_eq!(df[2], BTreeSet::from([3]));
    assert!(df[3].is_empty());
    assert!(df[0].is_empty());
}

#[test]
fn dom_children_builds_the_tree() {
    let idom = vec![None, Some(0), Some(0), Some(0)];
    let children = dom_children(&idom);
    assert_eq!(children[0], vec![1, 2, 3]);
    assert!(children[1].is_empty());
}

#[test]
fn unreachable_blocks_get_no_idom_and_do_not_hang() {
    let pred = vec![
        vec![],
        vec![5],
        vec![0],
        vec![0],
        vec![2, 3],
        vec![1],
    ];
    let dom = dominators_fwd(6, &pred);
    let idom = immediate_doms(&dom);

    assert_eq!(idom[0], None);
    assert_eq!(idom[2], Some(0));
    assert_eq!(idom[3], Some(0));
    assert_eq!(idom[4], Some(0));
    assert_eq!(idom[1], None, "unreachable block must not get an idom");
    assert_eq!(idom[5], None, "unreachable block must not get an idom");

    let df = dominance_frontier(6, &pred, &idom);
    assert_eq!(df[2], BTreeSet::from([4]));
    assert_eq!(df[3], BTreeSet::from([4]));
}

#[test]
fn cyclic_idom_input_still_terminates() {
    let pred = vec![vec![], vec![2], vec![1], vec![1, 2]];
    let idom = vec![None, Some(2), Some(1), Some(0)];
    let df = dominance_frontier(4, &pred, &idom);
    assert!(df.len() == 4);
}

#[test]
fn a_loop_header_dominates_its_body() {
    // 0 -> 1 -> 2 -> {1, 3}
    let pred = vec![vec![], vec![0, 2], vec![1], vec![2]];
    let dom = dominators_fwd(4, &pred);
    assert_eq!(dom[3], BTreeSet::from([0, 1, 2, 3]));
    let idom = immediate_doms(&dom);
    assert_eq!(idom, vec![None, Some(0), Some(1), Some(2)]);
    let df = dominance_frontier(4, &pred, &idom);
    assert_eq!(df[2], BTreeSet::from([1]));
    assert_eq!(df[1], BTreeSet::from([1]));
    assert_eq!(reachable_from_entry(4, &pred), vec![true, true, true, true]);
}

#[test]
fn exits_are_dominated_from_behind() {
    // 0 -> {1, 2}, both exits: nothing but itself lies on all ways out of 0.
    let succ = vec![vec![1, 2], vec![], vec![]];
    let dom = dominators_rev(3, &succ, &[false, true, true], &[false, false, false]);
    assert!(dom[0].contains(&0) && !dom[0].contains(&1) && !dom[0].contains(&2));
    // With 2 an abort, every way that ends well passes through 1.
    let dom = dominators_rev(3, &succ, &[false, true, false], &[false, false, true]);
    assert!(dom[0].contains(&1));
}

fn block(id: usize, start: u64, to: &[u64]) -> CfgBlock {
    CfgBlock {
        id,
        start: Va(start),
        end: Va(start + 1),
        terminator: "jmp".to_string(),
        successors: to.iter().map(|&a| Successor { to: Va(a), kind: "jmp".to_string(), confidence: 100 }).collect(),
        insns: vec![],
    }
}

#[test]
fn edges_out_of_a_function_are_left_out_of_its_graph() {
    let blocks = vec![block(0, 0x10, &[0x20, 0x30]), block(1, 0x20, &[0x30, 0x99]), block(2, 0x30, &[0x10])];
    let cfg = CfgArtifact {
        start: Va(0x10),
        end: Va(0x31),
        block_count: 3,
        insn_count: 0,
        blocks,
        callsites: vec![],
        switches: vec![],
        frame: FrameInfo { frame_size: 0, uses_rbp: false, spilled_regs: vec![], prolog: vec![] },
        stats: CfgStats { returns: 0, calls: 0, indirect_branches: 0, tail_calls: 0, noreturn_calls: 0 },
    };
    let (succ, pred) = block_graph(&cfg);
    assert_eq!(succ, vec![vec![1, 2], vec![2], vec![0]]);
    assert_eq!(pred, vec![vec![2], vec![0], vec![0, 1]]);
}

#[test]
fn a_loop_back_to_the_entry_puts_it_into_the_frontier() {
    let pred = vec![vec![1], vec![0]];
    let df = dominance_frontier(2, &pred, &vec![None, Some(0)]);
    assert_eq!(df, vec![BTreeSet::from([0]), BTreeSet::from([0])]);
}

#[test]
fn a_dominator_outside_the_family_can_be_immediate() {
    let alone = vec![BTreeSet::from([0]), BTreeSet::from([1, 7])];
    assert_eq!(immediate_doms(&alone), vec![None, Some(7)]);
    let shared = vec![BTreeSet::from([0, 7]), BTreeSet::from([0, 1, 7])];
    assert_eq!(immediate_doms(&shared), vec![Some(7), Some(0)]);
}
