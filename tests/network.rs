use purple_core::graph::{Bfs, Graph};
use purple_core::mempool::MempoolErr;
use purple_core::packet::{NetworkErr, RequestPieceInfo, ShortHash};
use purple_core::peer::ConnectionType;
use purple_core::ping_pong::PingPongReceiverState;

#[test]
fn packet_round_trip() {
    let p = RequestPieceInfo::new(ShortHash([1, 2, 3, 4, 5, 6, 7, 8]), ShortHash([9; 8]));
    let bytes = p.to_bytes();
    assert_eq!(bytes.len(), 25);
    assert_eq!(bytes[0], 14);
    assert_eq!(RequestPieceInfo::from_bytes(&bytes), Ok(p));
}

#[test]
fn packet_layout() {
    let p = RequestPieceInfo { nonce: 0x0102030405060708, block_hash: ShortHash([10; 8]), piece_hash: ShortHash([11; 8]) };
    let mut want = vec![14u8, 1, 2, 3, 4, 5, 6, 7, 8];
    want.extend_from_slice(&[10; 8]);
    want.extend_from_slice(&[11; 8]);
    assert_eq!(p.to_bytes(), want);
}

#[test]
fn packet_rejects_bad_input() {
    let p = RequestPieceInfo { nonce: 5, block_hash: ShortHash([0; 8]), piece_hash: ShortHash([0; 8]) };
    let mut bytes = p.to_bytes();
    assert_eq!(RequestPieceInfo::from_bytes(&Vec::new()), Err(NetworkErr::BadFormat));
    assert_eq!(RequestPieceInfo::from_bytes(&bytes[..24].to_vec()), Err(NetworkErr::BadFormat));
    bytes[0] = 13;
    assert_eq!(RequestPieceInfo::from_bytes(&bytes), Err(NetworkErr::BadFormat));
}

#[test]
fn bfs_walks_breadth_first() {
    // 0 -> 1, 0 -> 2, 1 -> 3, 2 -> 3; 4 is a second root with 4 -> 5.
    let mut g = Graph::new(6);
    g.add_edge(0, 1);
    g.add_edge(0, 2);
    g.add_edge(1, 3);
    g.add_edge(2, 3);
    g.add_edge(4, 5);
    assert_eq!(g.roots(), vec![0, 4]);
    let mut bfs = Bfs::new(&g);
    let mut order = Vec::new();
    while let Some(v) = bfs.next() {
        order.push(v);
    }
    assert_eq!(order, vec![4, 5, 0, 1, 2, 3]);
    assert_eq!(bfs.next(), None);
}

#[test]
fn bfs_on_empty_graph() {
    let g = Graph::new(0);
    let mut bfs = Bfs::new(&g);
    assert_eq!(bfs.next(), None);
}

#[test]
fn small_enums() {
    assert_eq!(PingPongReceiverState::default(), PingPongReceiverState::Ready);
    assert_ne!(ConnectionType::Client, ConnectionType::Server);
    assert_ne!(MempoolErr::Full, MempoolErr::DoubleSpend);
    assert_eq!(MempoolErr::BadTx.clone(), MempoolErr::BadTx);
}

#[test]
fn bfs_reaches_through_cycles() {
    let mut g = Graph::new(4);
    g.add_edge(0, 1);
    g.add_edge(1, 2);
    g.add_edge(2, 1);
    g.add_edge(2, 3);
    let mut bfs = Bfs::new(&g);
    let mut order = Vec::new();
    while let Some(v) = bfs.next() {
        order.push(v);
    }
    assert_eq!(order, vec![0, 1, 2, 3]);
}

#[test]
fn bfs_without_roots_yields_nothing() {
    let mut g = Graph::new(2);
    g.add_edge(0, 1);
    g.add_edge(1, 0);
    assert!(g.roots().is_empty());
    let mut bfs = Bfs::new(&g);
    assert_eq!(bfs.next(), None);
}

#[test]
fn bfs_starts_at_last_root() {
    let mut g = Graph::new(5);
    g.add_edge(1, 0);
    g.add_edge(3, 4);
    assert_eq!(g.roots(), vec![1, 2, 3]);
    let bfs = Bfs::new(&g);
    assert_eq!(bfs.current_ptr, Some(3));
    assert_eq!(bfs.roots_stack, vec![1, 2]);
    assert!(bfs.queue.is_empty());
    let mut bfs = Bfs::new(&g);
    let mut order = Vec::new();
    while let Some(v) = bfs.next() {
        order.push(v);
    }
    assert_eq!(order, vec![3, 4, 2, 1, 0]);
    assert_eq!(bfs.next(), None);
    assert_eq!(bfs.next(), None);
}

#[test]
fn bfs_skips_unreachable_vertices() {
    // 2 and 3 form a cycle that no root reaches.
    let mut g = Graph::new(4);
    g.add_edge(0, 1);
    g.add_edge(2, 3);
    g.add_edge(3, 2);
    let mut bfs = Bfs::new(&g);
    let mut order = Vec::new();
    while let Some(v) = bfs.next() {
        order.push(v);
    }
    assert_eq!(order, vec![0, 1]);
    assert_eq!(bfs.next(), None);
}
