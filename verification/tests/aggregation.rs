//! Query aggregation: point indices in first-seen order, grouping by point
//! set regardless of insertion order, and evaluation alignment to the
//! canonical set order.

use multiopen::field::Scalar;
use multiopen::poly::Blind;
use multiopen::queries::ProverQuery;
use multiopen::queries::construct_intermediate_sets;

fn query(poly: usize, point: Scalar, eval: Scalar) -> ProverQuery {
    ProverQuery {
        poly,
        point,
        eval,
        blind: Blind(Scalar::from_u64(poly as u64 + 1)),
    }
}

#[test]
fn grouping_invariance() {
    let z1 = Scalar::from_u64(10);
    let z2 = Scalar::from_u64(20);
    // Polynomial 0 queried at {z1, z2}; polynomial 1 at {z2, z1}: the same
    // set in a different insertion order. Polynomial 2 at {z1} only.
    let queries = vec![
        query(0, z1, Scalar::from_u64(100)),
        query(0, z2, Scalar::from_u64(101)),
        query(1, z2, Scalar::from_u64(200)),
        query(1, z1, Scalar::from_u64(201)),
        query(2, z1, Scalar::from_u64(300)),
    ];
    let (cds, point_sets) = construct_intermediate_sets(&queries);
    assert_eq!(cds.len(), 3);
    assert_eq!(cds[0].set_index, cds[1].set_index);
    assert_ne!(cds[0].set_index, cds[2].set_index);
    assert_eq!(point_sets.len(), 2);
}

#[test]
fn concrete_scenario_structure() {
    // Polynomial P queried at z1 and z2; polynomial Q at z1 only. Point
    // indices are assigned first-seen: z1 -> 0, z2 -> 1. P's group key is
    // {0, 1}, Q's is {0}: two distinct groups.
    let z1 = Scalar::from_u64(5);
    let z2 = Scalar::from_u64(6);
    let queries = vec![
        query(7, z1, Scalar::from_u64(50)),
        query(7, z2, Scalar::from_u64(51)),
        query(9, z1, Scalar::from_u64(90)),
    ];
    let (cds, point_sets) = construct_intermediate_sets(&queries);
    assert_eq!(cds.len(), 2);
    assert_eq!(cds[0].poly, 7);
    assert_eq!(cds[0].point_indices, vec![0, 1]);
    assert_eq!(cds[0].set_index, 0);
    assert_eq!(cds[1].poly, 9);
    assert_eq!(cds[1].point_indices, vec![0]);
    assert_eq!(cds[1].set_index, 1);
    assert_eq!(point_sets.len(), 2);
    assert_eq!(point_sets[0].len(), 2);
    assert!(point_sets[0][0].eq_val(&z1));
    assert!(point_sets[0][1].eq_val(&z2));
    assert_eq!(point_sets[1].len(), 1);
    assert!(point_sets[1][0].eq_val(&z1));
    // The blind recorded for each group is the one of its first query.
    assert!(cds[0].blind.0.eq_val(&Scalar::from_u64(8)));
    assert!(cds[1].blind.0.eq_val(&Scalar::from_u64(10)));
}

#[test]
fn eval_alignment_follows_canonical_order() {
    // A polynomial queried at {z2, z1}, in that insertion order, gets its
    // evaluations re-aligned to the sorted index set {0:z2? no: z2 is seen
    // first so z2 -> 0, z1 -> 1}; the canonical order is index order.
    let z1 = Scalar::from_u64(31);
    let z2 = Scalar::from_u64(32);
    let e_at_z2 = Scalar::from_u64(902);
    let e_at_z1 = Scalar::from_u64(901);
    let queries = vec![query(4, z2, e_at_z2), query(4, z1, e_at_z1)];
    let (cds, point_sets) = construct_intermediate_sets(&queries);
    assert_eq!(cds.len(), 1);
    // z2 was seen first: index 0; z1: index 1. Canonical set {0, 1}.
    assert_eq!(cds[0].point_indices, vec![0, 1]);
    assert_eq!(cds[0].evals.len(), 2);
    assert!(cds[0].evals[0].eq_val(&e_at_z2));
    assert!(cds[0].evals[1].eq_val(&e_at_z1));
    assert!(point_sets[0][0].eq_val(&z2));
    assert!(point_sets[0][1].eq_val(&z1));
}

#[test]
fn duplicate_point_same_index() {
    // The same point queried for two handles gets one index.
    let z = Scalar::from_u64(77);
    let queries = vec![
        query(1, z, Scalar::from_u64(1)),
        query(2, z, Scalar::from_u64(2)),
    ];
    let (cds, point_sets) = construct_intermediate_sets(&queries);
    assert_eq!(cds.len(), 2);
    assert_eq!(point_sets.len(), 1);
    assert_eq!(cds[0].point_indices, vec![0]);
    assert_eq!(cds[1].point_indices, vec![0]);
    assert_eq!(cds[0].set_index, cds[1].set_index);
}
