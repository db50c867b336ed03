use mangatan_ocr_server::union_find::UnionFind;

#[test]
fn fresh_elements_are_their_own_roots() {
    let mut uf = UnionFind::new(4);
    for i in 0..4 {
        assert_eq!(uf.find(i), i);
    }
}

#[test]
fn union_joins_two_sets_and_no_others() {
    let mut uf = UnionFind::new(5);
    uf.union(0, 1);
    uf.union(3, 4);
    assert_eq!(uf.find(0), uf.find(1));
    assert_eq!(uf.find(3), uf.find(4));
    assert_ne!(uf.find(0), uf.find(3));
    assert_ne!(uf.find(2), uf.find(0));
    uf.union(1, 4);
    assert_eq!(uf.find(0), uf.find(3));
    assert_ne!(uf.find(2), uf.find(3));
}

#[test]
fn the_root_of_higher_rank_stands_for_the_merged_set() {
    let mut uf = UnionFind::new(4);
    uf.union(0, 1);
    uf.union(1, 2);
    assert_eq!(uf.find(0), 0);
    assert_eq!(uf.find(1), 0);
    assert_eq!(uf.find(2), 0);
    assert_eq!(uf.find(3), 3);
    let ranks: Vec<usize> = (0..4).map(|k| uf.rank_at(k)).collect();
    assert_eq!(ranks, vec![1, 0, 0, 0]);
}

#[test]
fn on_a_tie_the_first_root_wins_and_grows() {
    let mut uf = UnionFind::new(4);
    uf.union(2, 3);
    assert_eq!(uf.find(3), 2);
    assert_eq!(uf.rank_at(2), 1);
    assert_eq!(uf.rank_at(3), 0);
    uf.union(1, 0);
    assert_eq!(uf.find(0), 1);
    // Two roots of rank one: the first argument's root stands for all.
    uf.union(0, 3);
    assert_eq!(uf.find(2), 1);
    assert_eq!(uf.rank_at(1), 2);
    assert_eq!(uf.rank_at(2), 1);
    // Joining what is joined changes no rank.
    uf.union(3, 0);
    assert_eq!(uf.rank_at(1), 2);
}

#[test]
fn find_links_the_whole_way_to_the_root() {
    let mut uf = UnionFind::new(4);
    uf.union(0, 1);
    uf.union(2, 3);
    uf.union(0, 2);
    // 3 hangs below 2, which hangs below 0.
    assert_eq!(uf.parent_at(3), 2);
    assert_eq!(uf.parent_at(2), 0);
    assert_eq!(uf.find(3), 0);
    assert_eq!(uf.parent_at(3), 0);
    assert_eq!(uf.parent_at(2), 0);
    assert_eq!(uf.parent_at(1), 0);
    assert_eq!(uf.parent_at(0), 0);
    let ranks: Vec<usize> = (0..4).map(|k| uf.rank_at(k)).collect();
    assert_eq!(ranks, vec![2, 0, 1, 0]);
}
