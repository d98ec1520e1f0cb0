use kademlia::id::Id;
use kademlia::kbucket::KBUCKET_MAX_LENGTH;
use kademlia::routing::NodeInfo;
use kademlia::routing::RoutingTable;
use kademlia::routing::ROUTING_TABLE_MAX_LENGTH;

#[test]
fn index() {
    let mut rt = RoutingTable::new(NodeInfo {
        id: Id::new([1u8; 20]),
        address: "localhost:8080".to_string(),
    });

    let n1 = NodeInfo {
        id: Id::new([3u8; 20]),
        address: "localhost:8081".to_string(),
    };
    rt.upsert(n1);
    println!("{:?}", rt)
}

#[test]
fn find() {
    let mut rt = RoutingTable::new(NodeInfo {
        id: Id::random(),
        address: "localhost:8080".to_string(),
    });

    let id = Id::random();
    let n1 = NodeInfo {
        id: id.clone(),
        address: "localhost:8081".to_string(),
    };
    rt.upsert(n1.clone());
    assert_eq!(rt.find(&id), Some(n1))
}

fn local() -> NodeInfo {
    NodeInfo { id: Id::new([0u8; 20]), address: "127.0.0.1:8080".to_string() }
}

/// A peer at distance `d` from the all-zero identifier.
fn at_distance(d: usize, n: u8) -> NodeInfo {
    let mut xs = [0u8; 20];
    xs[d / 8] = 0x80 >> (d % 8);
    xs[19] |= n;
    NodeInfo { id: Id::new(xs), address: format!("127.0.0.1:{}", 10000 + d * 100 + n as usize) }
}

fn peers_of(rt: &RoutingTable) -> Vec<NodeInfo> {
    let mut out = Vec::new();
    for i in 0..rt.size() {
        out.extend(rt.bucket(i).unwrap().0.iter().cloned());
    }
    out
}

fn check_invariant(rt: &RoutingTable) {
    assert!(rt.size() >= 1);
    assert!(rt.size() <= rt.max_size());
    assert!(rt.bucket(rt.size()).is_none());
    let me = &rt.node_info().id;
    for i in 0..rt.size() {
        let kb = rt.bucket(i).unwrap();
        assert!(kb.size() <= KBUCKET_MAX_LENGTH);
        for (j, p) in kb.0.iter().enumerate() {
            assert_ne!(&p.id, me);
            if i + 1 < rt.size() {
                assert_eq!(me.distance(&p.id), i);
            } else {
                assert!(me.distance(&p.id) >= i);
            }
            for q in kb.0.iter().skip(j + 1) {
                assert_ne!(p, q);
            }
        }
    }
}

#[test]
fn a_new_table_has_one_empty_bucket() {
    let rt = RoutingTable::new(local());
    assert_eq!(rt.size(), 1);
    assert_eq!(rt.bucket(0).unwrap().size(), 0);
    assert_eq!(rt.node_info(), &local());
    assert_eq!(rt.find(&Id::new([9u8; 20])), None);
    assert_eq!(rt.closest(&Id::new([9u8; 20]), 20), vec![]);
    check_invariant(&rt);
}

#[test]
fn upsert_refreshes_a_known_peer() {
    let mut rt = RoutingTable::new(local());
    for n in 1..=3u8 {
        assert!(rt.upsert(at_distance(4, n)));
    }
    assert!(rt.upsert(at_distance(4, 1)));
    assert_eq!(rt.size(), 1);
    assert_eq!(
        peers_of(&rt),
        vec![at_distance(4, 2), at_distance(4, 3), at_distance(4, 1)]
    );
}

#[test]
fn a_full_last_bucket_splits() {
    let mut rt = RoutingTable::new(local());
    for n in 1..=20u8 {
        assert!(rt.upsert(at_distance(5, n)));
    }
    assert_eq!(rt.size(), 1);
    // the 21st belongs to bucket 0 once the far ones have left it
    assert!(rt.upsert(at_distance(0, 1)));
    assert_eq!(rt.size(), 2);
    assert_eq!(rt.bucket(0).unwrap().0, vec![at_distance(0, 1)]);
    assert_eq!(rt.bucket(1).unwrap().size(), 20);
    assert_eq!(peers_of(&rt).len(), 21);
    for n in 1..=20u8 {
        assert_eq!(rt.find(&at_distance(5, n).id), Some(at_distance(5, n)));
    }
    check_invariant(&rt);
}

#[test]
fn twenty_one_peers_at_the_last_index() {
    let mut rt = RoutingTable::new(local());
    for n in 1..=20u8 {
        assert!(rt.upsert(at_distance(0, n)));
    }
    // all of them are at the index of the bucket that is split, so all stay,
    // and the 21st finds its bucket full and no longer the last
    assert!(!rt.upsert(at_distance(0, 21)));
    assert_eq!(rt.size(), 2);
    assert_eq!(rt.bucket(0).unwrap().size(), 20);
    assert_eq!(rt.bucket(1).unwrap().size(), 0);
    assert_eq!(rt.find(&at_distance(0, 21).id), None);
    for n in 1..=20u8 {
        assert_eq!(rt.find(&at_distance(0, n).id), Some(at_distance(0, n)));
    }
    // a known peer is still refreshed
    assert!(rt.upsert(at_distance(0, 1)));
    assert_eq!(rt.bucket(0).unwrap().0.back(), Some(&at_distance(0, 1)));
    check_invariant(&rt);
}

#[test]
fn the_table_splits_as_often_as_it_takes() {
    let mut rt = RoutingTable::new(local());
    for n in 1..=20u8 {
        assert!(rt.upsert(at_distance(9, n)));
    }
    assert!(rt.upsert(at_distance(9, 21)) == false || rt.size() > 1);
    // the bucket is split at 0, 1, .., 8; at 9 the peers stay, and the
    // newcomer with them finds no room
    assert_eq!(rt.size(), 11);
    assert_eq!(rt.find(&at_distance(9, 21).id), None);
    assert_eq!(rt.bucket(9).unwrap().size(), 20);
    assert_eq!(rt.bucket(10).unwrap().size(), 0);
    check_invariant(&rt);
}

#[test]
fn the_table_never_grows_past_its_ceiling() {
    let mut rt = RoutingTable::new(local());
    for n in 1..=20u8 {
        assert!(rt.upsert(at_distance(100, n)));
    }
    assert!(!rt.upsert(at_distance(100, 21)));
    assert_eq!(rt.size(), ROUTING_TABLE_MAX_LENGTH);
    assert_eq!(rt.size(), 15);
    assert_eq!(peers_of(&rt).len(), 20);
    assert!(!rt.upsert(at_distance(150, 1)));
    assert!(rt.upsert(at_distance(3, 1)));
    assert_eq!(rt.bucket(3).unwrap().0, vec![at_distance(3, 1)]);
    assert_eq!(rt.size(), 15);
    check_invariant(&rt);
}

#[test]
fn the_invariant_holds_under_random_upserts() {
    for _ in 0..20 {
        let mut rt = RoutingTable::new(NodeInfo {
            id: Id::random(),
            address: "127.0.0.1:1".to_string(),
        });
        let mut admitted = Vec::new();
        for n in 0..400u32 {
            let mut id = Id::random();
            // bring some close to the local node
            let keep = (n % 24) as usize;
            for k in 0..keep.min(20) / 2 {
                id.0[k] = rt.node_info().id.0[k];
            }
            let p = NodeInfo { id, address: format!("10.0.0.1:{}", n) };
            if rt.upsert(p.clone()) {
                admitted.push(p);
            }
            assert!(rt.size() <= ROUTING_TABLE_MAX_LENGTH);
        }
        check_invariant(&rt);
        let held = peers_of(&rt);
        assert_eq!(held.len(), admitted.len());
        for p in admitted.iter() {
            assert_eq!(rt.find(&p.id), Some(p.clone()));
            assert!(rt.bucket_for(&p.id).contains(p));
        }
    }
}

#[test]
fn remove_takes_the_peer_out() {
    let mut rt = RoutingTable::new(local());
    for d in 0..6usize {
        for n in 1..=5u8 {
            assert!(rt.upsert(at_distance(d, n)));
        }
    }
    let p = at_distance(2, 3);
    assert_eq!(rt.remove(&p), Some(p.clone()));
    assert_eq!(rt.find(&p.id), None);
    assert_eq!(rt.remove(&p), None);
    assert_eq!(rt.remove(&at_distance(77, 1)), None);
    assert_eq!(peers_of(&rt).len(), 29);
    check_invariant(&rt);
}

#[test]
fn closest_of_thirty_random_peers() {
    let mut rt = RoutingTable::new(NodeInfo { id: Id::random(), address: "a:1".to_string() });
    let mut n = 0;
    while peers_of(&rt).len() < 30 {
        n += 1;
        rt.upsert(NodeInfo { id: Id::random(), address: format!("b:{}", n) });
        assert!(n < 100000);
    }
    let target = Id::random();
    let found = rt.closest(&target, 20);
    assert!(found.len() <= 20);
    assert_eq!(found.len(), 20);
    for pair in found.windows(2) {
        assert!(pair[0].id.distance(&target) <= pair[1].id.distance(&target));
    }
    for p in found.iter() {
        assert_eq!(rt.find(&p.id), Some(p.clone()));
    }
}

#[test]
fn closest_sorts_and_truncates() {
    let mut rt = RoutingTable::new(local());
    // one bucket: everything is gathered
    let ds = [7usize, 3, 9, 3, 1, 12, 7];
    for (k, d) in ds.iter().enumerate() {
        assert!(rt.upsert(at_distance(*d, k as u8 + 1)));
    }
    let target = Id::new([0u8; 20]);
    let all = rt.closest(&target, 20);
    let got: Vec<(usize, u8)> = all.iter().map(|p| (p.id.distance(&target), p.id.0[19] & 0x1f)).collect();
    // ascending; peers at one distance in the order of the bucket
    assert_eq!(got, vec![(1, 5), (3, 2), (3, 4), (7, 1), (7, 7), (9, 3), (12, 6)]);
    let three = rt.closest(&target, 3);
    assert_eq!(three, all[..3].to_vec());
    assert_eq!(rt.closest(&target, 0), vec![]);
    assert_eq!(rt.closest(&target, 7), all);
}

#[test]
fn closest_gathers_from_the_bucket_of_the_target_upwards_then_downwards() {
    let mut rt = RoutingTable::new(local());
    for n in 1..=20u8 {
        assert!(rt.upsert(at_distance(2, n)));
    }
    // splits at 0 and 1
    assert!(rt.upsert(at_distance(1, 1)));
    assert!(rt.upsert(at_distance(1, 2)));
    assert!(rt.upsert(at_distance(0, 1)));
    assert_eq!(rt.size(), 3);
    // a target in bucket 1: bucket 1 and bucket 2 give 22 peers, which is enough
    let target = at_distance(1, 9).id;
    let found = rt.closest(&target, 20);
    assert_eq!(found.len(), 20);
    assert!(!found.contains(&at_distance(0, 1)));
    // the two peers of bucket 1 share 159 and 158 bits with the target... and come last
    for pair in found.windows(2) {
        assert!(pair[0].id.distance(&target) <= pair[1].id.distance(&target));
    }
    // asked for more than the buckets above hold, the lower bucket is gathered too
    let more = rt.closest(&target, 23);
    assert_eq!(more.len(), 23);
    assert!(more.contains(&at_distance(0, 1)));
    assert_eq!(more[0], at_distance(0, 1));
}

#[test]
fn a_table_needs_room_for_one_bucket() {
    assert!(RoutingTable::with_ceiling(local(), 0).is_none());
    let rt = RoutingTable::with_ceiling(local(), 1).unwrap();
    assert_eq!(rt.max_size(), 1);
    assert_eq!(rt.size(), 1);
    assert_eq!(RoutingTable::new(local()).max_size(), 15);
}

#[test]
fn a_table_of_one_bucket_never_splits() {
    let mut rt = RoutingTable::with_ceiling(local(), 1).unwrap();
    for n in 1..=20u8 {
        assert!(rt.upsert(at_distance(n as usize, n)));
    }
    assert!(!rt.upsert(at_distance(0, 1)));
    assert_eq!(rt.size(), 1);
    assert_eq!(peers_of(&rt).len(), 20);
}

#[test]
fn a_wide_table_has_a_bucket_for_each_distance() {
    let mut rt = RoutingTable::with_ceiling(local(), 161).unwrap();
    for n in 1..=20u8 {
        assert!(rt.upsert(at_distance(100, n)));
    }
    assert!(!rt.upsert(at_distance(100, 21)));
    // split at 0, 1, .., 100
    assert_eq!(rt.size(), 102);
    assert!(rt.upsert(at_distance(150, 1)));
    assert_eq!(rt.bucket(101).unwrap().0, vec![at_distance(150, 1)]);
    assert_eq!(rt.bucket(100).unwrap().size(), 20);
    assert_eq!(rt.size(), 102);
}
