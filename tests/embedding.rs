use rsparse::data::{Sprs, Trpl};
use rsparse::lusol;
use tutte_param::boundary::boundary_cycles;
use tutte_param::mesh::{Mesh, MeshError};
use tutte_param::tutte_embedding::{
    assemble_system, calc_vertices_degree, loop_membership, make_laplacian_triplets, Coeff,
    Triplet,
};

fn built(n: usize, faces: Vec<[usize; 3]>) -> Mesh {
    let mut m = Mesh::from_faces(n, faces);
    assert_eq!(m.construct_halfedge_list(), Ok(()));
    m
}

fn fan() -> Mesh {
    built(5, vec![[0, 1, 2], [0, 2, 3], [0, 3, 4], [0, 4, 1]])
}

/// Runs the whole embedding on positions `pos` and returns the new (x, y).
fn embed(m: &Mesh, pos: &[[f64; 3]]) -> Result<Vec<(f64, f64)>, MeshError> {
    let cycles = boundary_cycles(m);
    let lengths: Vec<u64> = cycles
        .iter()
        .map(|c| {
            let l: f64 = c
                .iter()
                .map(|&h| {
                    let a = pos[m.halfedges[h].v_src(&m.faces)];
                    let b = pos[m.halfedges[h].v_tgt(&m.faces)];
                    ((a[0] - b[0]).powi(2) + (a[1] - b[1]).powi(2) + (a[2] - b[2]).powi(2)).sqrt()
                })
                .sum();
            l.to_bits()
        })
        .collect();
    let sys = assemble_system(m, &cycles, &lengths)?;
    let n = m.n_vertices;
    let mut t: Trpl<f64> = Trpl::new();
    for e in &sys.triplets {
        let v = match e.coeff {
            Coeff::Unit => 1.0,
            Coeff::NegReciprocal(d) => -1.0 / d as f64,
        };
        t.append(e.row, e.col, v);
    }
    let a = Sprs::new_from_trpl(&t);
    let mut bx = vec![0.0; n];
    let mut by = vec![0.0; n];
    for (v, s) in sys.slots.iter().enumerate() {
        if let Some(i) = s {
            let th = 2.0 * std::f64::consts::PI * (*i as f64) / (sys.loop_len as f64);
            bx[v] = th.cos();
            by[v] = th.sin();
        }
    }
    lusol(&a, &mut bx, 1, 1e-6).unwrap();
    lusol(&a, &mut by, 1, 1e-6).unwrap();
    Ok(bx.into_iter().zip(by).collect())
}

fn close(a: (f64, f64), b: (f64, f64)) -> bool {
    (a.0 - b.0).abs() < 1e-9 && (a.1 - b.1).abs() < 1e-9
}

#[test]
fn flat_quad_goes_to_the_circle() {
    let m = built(4, vec![[0, 1, 2], [0, 2, 3]]);
    let pos = [[0.0, 0.0, 0.0], [1.0, 0.0, 0.0], [1.0, 1.0, 0.0], [0.0, 1.0, 0.0]];
    let cycles = boundary_cycles(&m);
    let sys = assemble_system(&m, &cycles, &vec![1]).unwrap();
    assert_eq!(sys.loop_len, 4);
    assert_eq!(sys.slots, vec![Some(3), Some(0), Some(1), Some(2)]);
    // Every vertex is pinned: only the unit diagonal remains.
    assert_eq!(sys.triplets.len(), 4);
    assert!(sys.triplets.iter().all(|t| t.row == t.col && t.coeff == Coeff::Unit));
    let xy = embed(&m, &pos).unwrap();
    assert!(close(xy[1], (1.0, 0.0)));
    assert!(close(xy[2], (0.0, 1.0)));
    assert!(close(xy[3], (-1.0, 0.0)));
    assert!(close(xy[0], (0.0, -1.0)));
}

#[test]
fn fan_laplacian_rows() {
    let m = fan();
    let degree = calc_vertices_degree(&m);
    assert_eq!(degree, vec![4, 3, 3, 3, 3]);
    let in_loop = loop_membership(5, &vec![1, 2, 3, 4]);
    let t = make_laplacian_triplets(&m, &in_loop, &degree);
    let mut expected: Vec<Triplet> =
        (0..5).map(|i| Triplet { row: i, col: i, coeff: Coeff::Unit }).collect();
    for col in [1, 2, 3, 4] {
        expected.push(Triplet { row: 0, col, coeff: Coeff::NegReciprocal(4) });
    }
    assert_eq!(t, expected);
}

#[test]
fn laplacian_with_no_pinned_vertex() {
    let m = built(4, vec![[0, 1, 2], [0, 2, 3]]);
    let degree = calc_vertices_degree(&m);
    let t = make_laplacian_triplets(&m, &vec![false; 4], &degree);
    // One summand per half-edge after the diagonal, in half-edge order.
    assert_eq!(t.len(), 4 + 6);
    assert_eq!(t[4], Triplet { row: 1, col: 2, coeff: Coeff::NegReciprocal(2) });
    assert_eq!(t[5], Triplet { row: 2, col: 0, coeff: Coeff::NegReciprocal(3) });
    assert_eq!(t[9], Triplet { row: 0, col: 2, coeff: Coeff::NegReciprocal(3) });
}

#[test]
fn fan_centre_is_mean_of_neighbours() {
    let m = fan();
    let pos = [
        [0.2, 0.1, 0.5],
        [1.0, 0.0, 0.0],
        [0.0, 1.0, 0.0],
        [-1.0, 0.0, 0.0],
        [0.0, -1.0, 0.0],
    ];
    let xy = embed(&m, &pos).unwrap();
    let mean = (
        (xy[1].0 + xy[2].0 + xy[3].0 + xy[4].0) / 4.0,
        (xy[1].1 + xy[2].1 + xy[3].1 + xy[4].1) / 4.0,
    );
    assert!(close(xy[0], mean));
    for v in 1..5 {
        let r = (xy[v].0 * xy[v].0 + xy[v].1 * xy[v].1).sqrt();
        assert!((r - 1.0).abs() < 1e-9);
    }
}

#[test]
fn embedding_twice_gives_the_same_result() {
    let m = fan();
    let pos = [
        [0.3, 0.2, 0.9],
        [2.0, 0.0, 0.1],
        [0.0, 1.5, 0.0],
        [-1.0, 0.0, 0.4],
        [0.0, -1.0, 0.0],
    ];
    let first = embed(&m, &pos).unwrap();
    let flat: Vec<[f64; 3]> = first.iter().map(|&(x, y)| [x, y, 0.0]).collect();
    let second = embed(&m, &flat).unwrap();
    for v in 0..5 {
        assert!(close(first[v], second[v]));
    }
}

#[test]
fn closed_mesh_fails_before_the_solve() {
    let m = built(4, vec![[0, 1, 2], [0, 3, 1], [1, 3, 2], [2, 3, 0]]);
    let pos = [[0.0; 3]; 4];
    assert_eq!(embed(&m, &pos).err(), Some(MeshError::NoBoundary));
}
