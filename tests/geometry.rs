use hypercube::geometry::{cube_edges, cube_vertices, Corner, Edge};

#[test]
fn edge_new_keeps_indices() {
    let e = Edge::new(3, 7);
    assert_eq!(e.a, 3);
    assert_eq!(e.b, 7);
}

#[test]
fn corner_new_keeps_coordinates() {
    let c = Corner::new(1, -1, 1, -1);
    assert_eq!((c.x, c.y, c.z, c.w), (1, -1, 1, -1));
}

#[test]
fn vertices_are_the_sixteen_half_unit_corners() {
    let v = cube_vertices();
    assert_eq!(v.len(), 16);
    for c in &v {
        for k in [c.x, c.y, c.z, c.w] {
            assert!(k == 1 || k == -1);
        }
    }
    for i in 0..16 {
        for j in (i + 1)..16 {
            assert_ne!(v[i], v[j]);
        }
    }
    assert_eq!(v[0], Corner::new(-1, -1, -1, -1));
    assert_eq!(v[2], Corner::new(1, -1, 1, -1));
    assert_eq!(v[15], Corner::new(-1, 1, 1, 1));
}

fn apart(u: &Corner, v: &Corner) -> usize {
    [(u.x, v.x), (u.y, v.y), (u.z, v.z), (u.w, v.w)].iter().filter(|(a, b)| a != b).count()
}

#[test]
fn edges_join_exactly_the_neighbours() {
    let v = cube_vertices();
    let e = cube_edges();
    assert_eq!(e.len(), 32);
    for edge in &e {
        assert_eq!(apart(&v[edge.a], &v[edge.b]), 1);
    }
    for i in 0..16 {
        for j in 0..16 {
            let joined = e.iter().any(|x| (x.a == i && x.b == j) || (x.a == j && x.b == i));
            assert_eq!(joined, apart(&v[i], &v[j]) == 1);
        }
    }
    for i in 0..16 {
        let degree = e.iter().filter(|x| x.a == i || x.b == i).count();
        assert_eq!(degree, 4);
    }
}
