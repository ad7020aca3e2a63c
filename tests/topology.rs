use tutte_param::boundary::boundary_cycles;
use tutte_param::halfedge::Halfedge;
use tutte_param::mesh::{Mesh, MeshError};
use tutte_param::tutte_embedding::{
    calc_vertices_degree, circle_slots, compute_longest_boundary_cycle, loop_membership,
    select_longest,
};

fn built(n: usize, faces: Vec<[usize; 3]>) -> Mesh {
    let mut m = Mesh::from_faces(n, faces);
    assert_eq!(m.construct_halfedge_list(), Ok(()));
    m
}

fn quad() -> Mesh {
    built(4, vec![[0, 1, 2], [0, 2, 3]])
}

#[test]
fn halfedge_navigation() {
    let h = Halfedge::new(5);
    assert_eq!(h.index, 5);
    assert_eq!(h.h_opp, 0);
    assert_eq!(h.face(), 1);
    assert_eq!(h.h_next(), 3);
    assert_eq!(h.h_prev(), 4);
    assert_eq!(Halfedge::new(3).h_prev(), 5);
    assert_eq!(Halfedge::new(4).h_next(), 5);
    let faces = vec![[0, 1, 2], [0, 2, 3]];
    assert_eq!(h.v_src(&faces), 0);
    assert_eq!(h.v_tgt(&faces), 2);
    assert!(!h.is_boundary());
    assert!(h.is_not_boundary());
    let b = Halfedge { index: 0, h_opp: -4 };
    assert!(b.is_boundary());
    assert!(!b.is_not_boundary());
    assert_eq!(b.next_boundary(), 3);
}

#[test]
fn quad_halfedges_pair_and_chain() {
    let m = quad();
    assert_eq!(m.halfedges.len(), 6);
    // Half-edges 1 (2 -> 0) and 5 (0 -> 2) share the diagonal.
    assert_eq!(m.halfedges[1].h_opp, 5);
    assert_eq!(m.halfedges[5].h_opp, 1);
    for (i, h) in m.halfedges.iter().enumerate() {
        assert_eq!(h.index, i);
        if h.h_opp >= 0 {
            let o = h.h_opp as usize;
            assert_ne!(o, i);
            assert_eq!(m.halfedges[o].h_opp, i as isize);
        }
    }
    // Boundary chain: 0 (1 -> 2), 3 (2 -> 3), 4 (3 -> 0), 2 (0 -> 1).
    assert_eq!(m.halfedges[0].next_boundary(), 3);
    assert_eq!(m.halfedges[3].next_boundary(), 4);
    assert_eq!(m.halfedges[4].next_boundary(), 2);
    assert_eq!(m.halfedges[2].next_boundary(), 0);
    assert_eq!(m.h_out, vec![2, 0, 3, 4]);
}

#[test]
fn boundary_chain_returns_after_loop_length() {
    let m = built(5, vec![[0, 1, 2], [0, 2, 3], [0, 3, 4], [0, 4, 1]]);
    for start in 0..m.halfedges.len() {
        if !m.halfedges[start].is_boundary() {
            continue;
        }
        let mut h = start;
        let mut steps = 0;
        loop {
            assert!(m.halfedges[h].is_boundary());
            h = m.halfedges[h].next_boundary();
            steps += 1;
            if h == start {
                break;
            }
            assert!(steps < m.halfedges.len());
        }
        assert_eq!(steps, 4);
    }
}

#[test]
fn rotation_about_a_vertex() {
    let m = quad();
    assert_eq!(m.h_cw(1), 3);
    assert_eq!(m.h_cw(0), -4);
    assert_eq!(m.h_cw(-2), -2);
    assert_eq!(m.h_ccw(1), m.halfedges[0].h_opp);
    assert_eq!(m.h_ccw(2), 5);
    assert_eq!(m.h_ccw(-7), -7);
}

#[test]
fn new_mesh_is_empty() {
    let m = Mesh::new();
    assert_eq!(m.n_vertices, 0);
    assert!(m.faces.is_empty());
    assert!(m.halfedges.is_empty());
    assert!(m.h_out.is_empty());
}

#[test]
fn non_manifold_edge_is_rejected() {
    let mut m = Mesh::from_faces(5, vec![[0, 1, 2], [1, 0, 3], [0, 1, 4]]);
    assert_eq!(m.construct_halfedge_list(), Err(MeshError::NonManifoldEdge));
    assert!(m.halfedges.is_empty());
    assert!(m.h_out.is_empty());
}

#[test]
fn out_of_range_vertex_is_rejected() {
    let mut m = Mesh::from_faces(3, vec![[0, 1, 5]]);
    assert_eq!(m.construct_halfedge_list(), Err(MeshError::VertexOutOfRange));
    assert!(m.halfedges.is_empty());
}

#[test]
fn bowtie_vertex_is_rejected() {
    let mut m = Mesh::from_faces(5, vec![[0, 1, 2], [0, 3, 4]]);
    assert_eq!(m.construct_halfedge_list(), Err(MeshError::NonManifoldVertex));
    assert!(m.halfedges.is_empty());
}

#[test]
fn closed_tetrahedron_has_no_boundary() {
    let m = built(4, vec![[0, 1, 2], [0, 3, 1], [1, 3, 2], [2, 3, 0]]);
    assert!(m.halfedges.iter().all(|h| h.is_not_boundary()));
    let cycles = boundary_cycles(&m);
    assert!(cycles.is_empty());
    assert_eq!(
        compute_longest_boundary_cycle(&m, &cycles, &vec![]),
        Err(MeshError::NoBoundary)
    );
}

#[test]
fn quad_degrees() {
    let m = quad();
    assert_eq!(calc_vertices_degree(&m), vec![3, 2, 3, 2]);
}

#[test]
fn quad_single_loop_is_selected_whole() {
    let m = quad();
    let cycles = boundary_cycles(&m);
    assert_eq!(cycles, vec![vec![0, 3, 4, 2]]);
    assert_eq!(
        compute_longest_boundary_cycle(&m, &cycles, &vec![17]),
        Ok(vec![1, 2, 3, 0])
    );
}

#[test]
fn longest_of_two_loops_wins() {
    let m = built(6, vec![[0, 1, 2], [3, 4, 5]]);
    let cycles = boundary_cycles(&m);
    assert_eq!(cycles, vec![vec![0, 1, 2], vec![3, 4, 5]]);
    assert_eq!(
        compute_longest_boundary_cycle(&m, &cycles, &vec![5, 9]),
        Ok(vec![4, 5, 3])
    );
    assert_eq!(
        compute_longest_boundary_cycle(&m, &cycles, &vec![9, 5]),
        Ok(vec![1, 2, 0])
    );
    // Equal lengths: the first loop found wins.
    assert_eq!(
        compute_longest_boundary_cycle(&m, &cycles, &vec![7, 7]),
        Ok(vec![1, 2, 0])
    );
}

#[test]
fn select_longest_picks_first_maximum() {
    assert_eq!(select_longest(&vec![3, 7, 7, 2]), Some(1));
    assert_eq!(select_longest(&vec![4]), Some(0));
    assert_eq!(select_longest(&vec![1, 2, 3]), Some(2));
    assert_eq!(select_longest(&vec![]), None);
}

#[test]
fn membership_and_slots() {
    assert_eq!(loop_membership(4, &vec![2, 0]), vec![true, false, true, false]);
    assert_eq!(
        circle_slots(4, &vec![1, 2, 3, 0]),
        vec![Some(3), Some(0), Some(1), Some(2)]
    );
    assert_eq!(circle_slots(4, &vec![2, 0, 2]), vec![Some(1), None, Some(2), None]);
    assert_eq!(circle_slots(2, &vec![]), vec![None, None]);
}
