use rank_transform::{level_graph, Pos, RankError, Solution, UnionFind};
use rank_transform::ordered::OrderedVec;

fn ranks_of(m: &[&[i32]]) -> Vec<Vec<i32>> {
    Solution::matrix_rank_transform(m.iter().map(|r| r.to_vec()).collect())
}

/// Equal values on a line share a rank, a smaller value has a smaller rank,
/// and every rank is positive.
fn check_line_order(m: &[Vec<i32>], r: &[Vec<i32>]) {
    assert_eq!(m.len(), r.len());
    for i in 0..m.len() {
        assert_eq!(m[i].len(), r[i].len());
        for j in 0..m[i].len() {
            assert!(r[i][j] >= 1);
            for k in 0..m[i].len() {
                if m[i][j] == m[i][k] {
                    assert_eq!(r[i][j], r[i][k]);
                }
                if m[i][j] < m[i][k] {
                    assert!(r[i][j] < r[i][k]);
                }
            }
            for k in 0..m.len() {
                if m[i][j] == m[k][j] {
                    assert_eq!(r[i][j], r[k][j]);
                }
                if m[i][j] < m[k][j] {
                    assert!(r[i][j] < r[k][j]);
                }
            }
        }
    }
}

#[test]
fn increasing_square() {
    assert_eq!(ranks_of(&[&[1, 2], &[3, 4]]), vec![vec![1, 2], vec![2, 3]]);
}

#[test]
fn all_equal() {
    assert_eq!(ranks_of(&[&[7, 7], &[7, 7]]), vec![vec![1, 1], vec![1, 1]]);
}

#[test]
fn repeated_rows() {
    let m = vec![vec![20, -21, 14], vec![-19, 4, 19], vec![22, -47, 24], vec![-19, 4, 19]];
    let r = Solution::matrix_rank_transform(m.clone());
    assert_eq!(r[1], r[3]);
    check_line_order(&m, &r);
    assert_eq!(r, vec![vec![4, 2, 3], vec![1, 3, 4], vec![5, 1, 6], vec![1, 3, 4]]);
}

#[test]
fn mixed_square() {
    assert_eq!(
        ranks_of(&[&[7, 3, 6], &[1, 4, 5], &[9, 8, 2]]),
        vec![vec![5, 1, 4], vec![1, 2, 3], vec![6, 3, 1]]
    );
}

#[test]
fn equal_values_apart_are_free() {
    // the two 5s share no line, so they need not share a rank
    assert_eq!(ranks_of(&[&[5, 1], &[2, 5]]), vec![vec![2, 1], vec![1, 2]]);
}

#[test]
fn chain_through_equal_values() {
    // the 3s at (0,0) and (1,1) are joined through the 3 at (0,1)
    let m = vec![vec![3, 3], vec![1, 3]];
    let r = Solution::matrix_rank_transform(m.clone());
    assert_eq!(r, vec![vec![2, 2], vec![1, 2]]);
    check_line_order(&m, &r);
}

#[test]
fn empty_matrix() {
    assert_eq!(Solution::matrix_rank_transform(vec![]), Vec::<Vec<i32>>::new());
    assert_eq!(Solution::matrix_rank_transform(vec![vec![], vec![]]), vec![Vec::<i32>::new(), vec![]]);
}

#[test]
fn single_cell_and_extremes() {
    assert_eq!(ranks_of(&[&[i32::MIN]]), vec![vec![1]]);
    assert_eq!(ranks_of(&[&[i32::MAX, i32::MIN]]), vec![vec![2, 1]]);
    assert_eq!(ranks_of(&[&[4], &[-4], &[0]]), vec![vec![3], vec![1], vec![2]]);
}

#[test]
fn line_order_holds() {
    let cases: Vec<Vec<Vec<i32>>> = vec![
        vec![vec![1, 2], vec![3, 4]],
        vec![vec![-37, -50, -3, 44], vec![-37, 46, 13, -32], vec![47, -42, -3, -40], vec![-17, -22, -39, 24]],
        vec![vec![2, 2, 1], vec![1, 2, 2], vec![2, 1, 2]],
        vec![vec![9, 9, 9, 1], vec![9, 1, 9, 9], vec![1, 9, 9, 9]],
    ];
    for m in cases {
        let r = Solution::matrix_rank_transform(m.clone());
        check_line_order(&m, &r);
    }
}

#[test]
fn least_rank_is_one() {
    let cases: Vec<Vec<Vec<i32>>> = vec![
        vec![vec![5, 6], vec![7, 8]],
        vec![vec![-3]],
        vec![vec![10, 10, 10]],
        vec![vec![20, -21, 14], vec![-19, 4, 19], vec![22, -47, 24], vec![-19, 4, 19]],
    ];
    for m in cases {
        let r = Solution::matrix_rank_transform(m);
        let least = r.iter().flatten().copied().min().unwrap();
        assert_eq!(least, 1);
    }
}

#[test]
fn ranking_twice_changes_nothing() {
    let cases: Vec<Vec<Vec<i32>>> = vec![
        vec![vec![1, 2], vec![3, 4]],
        vec![vec![7, 3, 6], vec![1, 4, 5], vec![9, 8, 2]],
        vec![vec![20, -21, 14], vec![-19, 4, 19], vec![22, -47, 24], vec![-19, 4, 19]],
    ];
    for m in cases {
        let once = Solution::matrix_rank_transform(m);
        let twice = Solution::matrix_rank_transform(once.clone());
        assert_eq!(once, twice);
    }
}

#[test]
fn ready_order_does_not_matter() {
    let m = vec![vec![20, -21, 14], vec![-19, 4, 19], vec![22, -47, 24], vec![-19, 4, 19]];
    let mut uf = Solution::union_find(&m);
    let g = Solution::force_graph(&m, &mut uf);
    let first = Solution::rank_groups(&g).unwrap();
    for seed in [1u64, 2, 3, 17, 12345, u64::MAX] {
        assert_eq!(level_graph(&g.succ, seed).unwrap(), first);
    }
    // a diamond with a long side: 0 -> 1 -> 2 -> 4, 0 -> 3 -> 4
    let succ = vec![vec![1, 3], vec![2], vec![4], vec![4], vec![]];
    for seed in 0u64..20 {
        assert_eq!(level_graph(&succ, seed), Ok(vec![1, 2, 3, 2, 4]));
    }
}

#[test]
fn cycle_is_reported() {
    let succ = vec![vec![1], vec![2], vec![0], vec![]];
    assert_eq!(level_graph(&succ, 0), Err(RankError::Cycle));
    let self_loop = vec![vec![0]];
    assert_eq!(level_graph(&self_loop, 5), Err(RankError::Cycle));
}

#[test]
fn disconnected_nodes_rank_one() {
    let succ: Vec<Vec<usize>> = vec![vec![], vec![], vec![]];
    assert_eq!(level_graph(&succ, 0), Ok(vec![1, 1, 1]));
}

#[test]
fn union_find_sets() {
    let mut uf = UnionFind::new(5);
    uf.union(0, 1);
    uf.union(3, 1);
    assert_eq!(uf.find(0), uf.find(3));
    assert_eq!(uf.find(1), 1);
    assert_ne!(uf.find(2), uf.find(0));
    assert_eq!(uf.find(4), 4);
    let g = uf.groups();
    assert_eq!(g[1], vec![0, 1, 3]);
    assert_eq!(g[2], vec![2]);
    assert_eq!(g[4], vec![4]);
    assert!(g[0].is_empty());
    assert!(g[3].is_empty());
}

#[test]
fn groups_of_matrix() {
    // the 7s at (0,0), (0,2), (1,2) are joined; the 7 at (1,0) joins (0,0) by the column
    let m = vec![vec![7, 1, 7], vec![7, 2, 7]];
    let mut uf = Solution::union_find(&m);
    let r = uf.find(0);
    assert_eq!(uf.find(2), r);
    assert_eq!(uf.find(3), r);
    assert_eq!(uf.find(5), r);
    assert_ne!(uf.find(1), r);
    assert_ne!(uf.find(4), uf.find(1));
}

#[test]
fn precedence_graph_of_matrix() {
    let m = vec![vec![1, 2], vec![3, 4]];
    let mut uf = Solution::union_find(&m);
    let g = Solution::force_graph(&m, &mut uf);
    assert_eq!(g.nodes.len(), 4);
    assert_eq!(g.node_of.len(), 4);
    let value_of = |c: usize| m[c / 2][c % 2];
    let mut edges: Vec<(i32, i32)> = g
        .edges()
        .into_iter()
        .map(|(u, v)| (g.nodes[u].value, g.nodes[v].value))
        .collect();
    edges.sort();
    assert_eq!(edges, vec![(1, 2), (1, 3), (2, 4), (3, 4)]);
    for c in 0..4 {
        let p = &g.nodes[g.node_of[c]];
        assert_eq!(p.value, value_of(c));
        assert_eq!(m[p.row][p.col], p.value);
    }
}

#[test]
fn covering_edges_only() {
    // in a row 1 < 2 < 3 only the neighbours in value are linked
    let m = vec![vec![3, 1, 2]];
    let mut uf = Solution::union_find(&m);
    let g = Solution::force_graph(&m, &mut uf);
    let mut edges: Vec<(i32, i32)> = g
        .edges()
        .into_iter()
        .map(|(u, v)| (g.nodes[u].value, g.nodes[v].value))
        .collect();
    edges.sort();
    assert_eq!(edges, vec![(1, 2), (2, 3)]);
}

#[test]
fn pos_from_tuple() {
    let p = Pos::from((-5, (2, 3)));
    assert_eq!(p.value, -5);
    assert_eq!(p.row, 2);
    assert_eq!(p.col, 3);
}

#[test]
fn node_payloads_compare() {
    let m = vec![vec![7, 7], vec![7, 7]];
    let mut uf = Solution::union_find(&m);
    let g = Solution::force_graph(&m, &mut uf);
    assert_eq!(g.nodes.len(), 1);
    assert!(g.edges().is_empty());
    assert_eq!(g.node_of, vec![0, 0, 0, 0]);
    assert_eq!(g.nodes[0].value, 7);
    assert_eq!(Pos::default(), Pos::from((0, (0, 0))));
}

#[test]
fn ordered_insert_keeps_equal_values() {
    let mut v = OrderedVec::new();
    v.insert((5, 0));
    v.insert((5, 1));
    v.insert((5, 0));
    v.insert((3, 7));
    v.insert((9, 2));
    v.insert((5, 4));
    let items: Vec<(i32, usize)> = (0..v.len()).map(|t| v.get(t)).collect();
    assert_eq!(items, vec![(3, 7), (5, 0), (5, 1), (5, 4), (9, 2)]);
}

#[test]
fn payload_cells_are_representatives() {
    let m = vec![vec![20, -21, 14], vec![-19, 4, 19], vec![22, -47, 24], vec![-19, 4, 19]];
    let mut uf = Solution::union_find(&m);
    let g = Solution::force_graph(&m, &mut uf);
    let cols = m[0].len();
    for p in &g.nodes {
        let x = p.row * cols + p.col;
        assert_eq!(uf.find(x), x);
        assert_eq!(m[p.row][p.col], p.value);
    }
    // the duplicate rows form groups across the matrix: 9 groups for 12 cells
    assert_eq!(g.nodes.len(), 9);
}
