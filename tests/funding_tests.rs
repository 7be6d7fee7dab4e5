use std::str::FromStr;
use txgraph::funding::{block_heights, build_transaction_graph};

#[test]
fn spend_creates_funding_edge() {
    // T2 spends an output of T1, which lies outside the run.
    let txs: Vec<(u32, Vec<u32>)> = vec![(2, vec![1])];
    let g = build_transaction_graph(&txs);
    assert!(g.contains_vertex(&1));
    assert!(g.contains_vertex(&2));
    assert!(g.contains_edge(&1, &2));
    assert!(!g.contains_edge(&2, &1));
    assert_eq!(g.vertices().len(), 2);
}

#[test]
fn funding_graph_over_several_transactions() {
    let txs: Vec<(u32, Vec<u32>)> = vec![(10, vec![0]), (11, vec![10, 7]), (12, vec![11]), (13, vec![])];
    let g = build_transaction_graph(&txs);
    assert!(g.contains_edge(&0, &10));
    assert!(g.contains_edge(&10, &11));
    assert!(g.contains_edge(&7, &11));
    assert!(g.contains_edge(&11, &12));
    assert!(!g.contains_vertex(&13));
    assert_eq!(g.vertices().len(), 5);
    assert!(g.path_exists_between(&0, &12));
    assert!(!g.path_exists_between(&12, &0));
}

#[test]
fn funding_graph_with_bitcoin_txids() {
    let t1 = bitcoin::Txid::from_str("a1075db55d416d3ca199f55b6084e2115b9345e16c5cf302fc80e9d5fbf5d48d").unwrap();
    let t2 = bitcoin::Txid::from_str("f4184fc596403b9d638783cf57adfe4c75c605f6356fbc91338530e9831e9e16").unwrap();
    let txs: Vec<(bitcoin::Txid, Vec<bitcoin::Txid>)> = vec![(t2, vec![t1])];
    let g = build_transaction_graph(&txs);
    assert!(g.contains_vertex(&t1));
    assert!(g.contains_vertex(&t2));
    assert!(g.contains_edge(&t1, &t2));
}

#[test]
fn empty_run_gives_empty_graph() {
    let txs: Vec<(u32, Vec<u32>)> = vec![];
    let g = build_transaction_graph(&txs);
    assert!(g.vertices().is_empty());
}

#[test]
fn heights_are_inclusive() {
    assert_eq!(block_heights(94, 100), vec![94, 95, 96, 97, 98, 99, 100]);
    assert_eq!(block_heights(5, 5), vec![5]);
    assert!(block_heights(6, 5).is_empty());
    assert_eq!(block_heights(u64::MAX - 1, u64::MAX), vec![u64::MAX - 1, u64::MAX]);
}
