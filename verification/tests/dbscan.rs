use optiq::plansense::clustering::dbscan::DBSCAN;

struct Operator {
    kind: String,
    cost: f32,
    rows: u64,
}

struct Plan {
    operators: Vec<Operator>,
    total_cost: f32,
    estimated_rows: u64,
}

/// Feature vector of a plan: per operator its cost and rows, then the
/// plan's total cost and row estimate, scaled by the largest feature.
fn feature_vector(plan: &Plan) -> Vec<f32> {
    let mut vector = vec![];
    let mut op_counts: std::collections::HashMap<String, u32> = std::collections::HashMap::new();
    for op in &plan.operators {
        *op_counts.entry(op.kind.clone()).or_insert(0) += 1;
        vector.push(op.cost);
        vector.push(op.rows as f32);
    }
    vector.push(plan.total_cost);
    vector.push(plan.estimated_rows as f32);
    let max_val = vector.iter().fold(f32::MIN, |a, &b| a.max(b));
    if max_val > 0.0 {
        vector = vector.iter().map(|x| x / max_val).collect();
    }
    vector
}

fn within_radius(points: &[Vec<f32>], eps: f32) -> Vec<Vec<bool>> {
    points
        .iter()
        .map(|a| {
            points
                .iter()
                .map(|b| {
                    a.iter().zip(b.iter()).map(|(&x, &y)| (x - y).powi(2)).sum::<f32>().sqrt() <= eps
                })
                .collect()
        })
        .collect()
}

/// The within-radius relation of `n` points for a radius of 0 or more:
/// every point lies within its own radius, and the given pairs within each
/// other's.
fn matrix(edges: &[(usize, usize)], n: usize) -> Vec<Vec<bool>> {
    let mut m = vec![vec![false; n]; n];
    for i in 0..n {
        m[i][i] = true;
    }
    for &(a, b) in edges {
        m[a][b] = true;
        m[b][a] = true;
    }
    m
}

#[test]
fn test_dbscan_clustering() {
    let plans = vec![
        Plan {
            operators: vec![Operator { kind: "Seq Scan".to_string(), cost: 100.0, rows: 1000 }],
            total_cost: 100.0,
            estimated_rows: 1000,
        },
        Plan {
            operators: vec![Operator { kind: "Seq Scan".to_string(), cost: 110.0, rows: 1100 }],
            total_cost: 110.0,
            estimated_rows: 1100,
        },
        Plan {
            operators: vec![Operator { kind: "Index Scan".to_string(), cost: 50.0, rows: 100 }],
            total_cost: 50.0,
            estimated_rows: 100,
        },
    ];
    let query_ids: Vec<String> = (0..plans.len()).map(|i| format!("q{}", i)).collect();
    assert_eq!(query_ids.len(), plans.len());

    let fingerprints: Vec<Vec<f32>> = plans.iter().map(feature_vector).collect();
    let within = within_radius(&fingerprints, 0.5);

    let dbscan = DBSCAN::new(2);
    let labels = dbscan.cluster(&within);

    // Expect two clusters: Seq Scan plans together, Index Scan as outlier
    assert_eq!(labels.len(), 3);
    assert_eq!(labels[0], labels[1]); // Same cluster
    assert_ne!(labels[0], labels[2]); // Different cluster
}

#[test]
fn dbscan_empty_input() {
    let labels = DBSCAN::new(2).cluster(&vec![]);
    assert!(labels.is_empty());
}

#[test]
fn dbscan_two_components_numbered_by_first_point() {
    // 0-1-2 chain, 3-4 pair, 5 isolated
    let m = matrix(&[(0, 1), (1, 2), (3, 4)], 6);
    let labels = DBSCAN::new(2).cluster(&m);
    assert_eq!(labels, vec![Some(0), Some(0), Some(0), Some(1), Some(1), None]);
}

#[test]
fn dbscan_min_pts_counts_the_point_itself() {
    let m = matrix(&[(0, 1)], 3);
    assert_eq!(DBSCAN::new(3).cluster(&m), vec![None, None, None]);
    assert_eq!(DBSCAN::new(1).cluster(&m), vec![Some(0), Some(0), Some(1)]);
    assert_eq!(DBSCAN::new(0).cluster(&m), vec![Some(0), Some(0), Some(1)]);
}

#[test]
fn dbscan_border_point_joins_lowest_cluster() {
    // cores: 0 (neighbours 1, 2, 5) and 4 (neighbours 2, 3, 6); point 2,
    // with two neighbours, is a border point of both.
    let m = matrix(&[(0, 1), (0, 2), (0, 5), (4, 2), (4, 3), (4, 6)], 7);
    let labels = DBSCAN::new(4).cluster(&m);
    assert_eq!(labels, vec![Some(0), Some(0), Some(0), Some(1), Some(1), Some(0), Some(1)]);
}

#[test]
fn dbscan_density_chain_through_cores() {
    // 0-1-2-3-4 path; with min_pts 3 the inner points 1,2,3 are cores and
    // carry the cluster to both ends.
    let m = matrix(&[(0, 1), (1, 2), (2, 3), (3, 4)], 5);
    let labels = DBSCAN::new(3).cluster(&m);
    assert_eq!(labels, vec![Some(0); 5]);
}

#[test]
fn dbscan_noise_between_sparse_points() {
    // a non-core point between two non-core points links nothing
    let m = matrix(&[(0, 1), (1, 2)], 3);
    let labels = DBSCAN::new(4).cluster(&m);
    assert_eq!(labels, vec![None, None, None]);
}

#[test]
fn dbscan_point_outside_its_own_radius_does_not_count_itself() {
    // With a negative radius no point lies within its own radius, so an
    // isolated point is noise even with min_pts 1.
    let m = vec![vec![false]];
    assert_eq!(DBSCAN::new(1).cluster(&m), vec![None]);
    assert_eq!(DBSCAN::new(0).cluster(&m), vec![Some(0)]);
    // Two points within each other's radius but not their own: each has
    // one point in its neighbourhood.
    let pair = vec![vec![false, true], vec![true, false]];
    assert_eq!(DBSCAN::new(2).cluster(&pair), vec![None, None]);
    assert_eq!(DBSCAN::new(1).cluster(&pair), vec![Some(0), Some(0)]);
}
