use extensor_coding::extensor::ExTensor;
use extensor_coding::graph::{Graph, GraphError};
use extensor_coding::matrix::Matrix;
use extensor_coding::utils::create_vandermonde;

/// The graph6 encoding of the undirected path on `n` vertices.
fn path_graph6(n: usize, header: bool) -> Vec<u8> {
    let mut bits = Vec::new();
    for hi in 1..n {
        for lo in 0..hi {
            bits.push(hi == lo + 1);
        }
    }
    while bits.len() % 6 != 0 {
        bits.push(false);
    }
    let mut out = Vec::new();
    if header {
        out.extend_from_slice(b">>graph6<<");
    }
    if n <= 62 {
        out.push(n as u8 + 63);
    } else {
        out.push(126);
        out.push((n >> 12) as u8 + 63);
        out.push(((n >> 6) & 63) as u8 + 63);
        out.push((n & 63) as u8 + 63);
    }
    for chunk in bits.chunks(6) {
        let mut v = 0u8;
        for b in chunk {
            v = v * 2 + (*b as u8);
        }
        out.push(v + 63);
    }
    out.push(b'\n');
    out
}

/// returns the adjacency matrix of the n path graph
fn get_n_path_graph_adj_mat(n: usize) -> Matrix<u8> {
    let mut res = Vec::with_capacity(n * n);
    for i in 0..n {
        for j in 0..n {
            if i == j + 1 || i + 1 == j {
                res.push(1);
            } else {
                res.push(0);
            }
        }
    }
    Matrix::new(n, n, res)
}

#[test]
fn graph6_header() {
    let g = Graph::from_graph6(b">>graph6<<IhCGGC@?G\n").unwrap();
    let expect = get_n_path_graph_adj_mat(10);
    assert_eq!(g.adjacency().rows(), expect.rows(), "Graph6 file with header should be read correctly");
}

#[test]
fn adj_mat() {
    let g = Graph::from_graph6(b"IhCGGC@?G\n").unwrap();
    let expect = get_n_path_graph_adj_mat(10);
    assert_eq!(g.adjacency().rows(), expect.rows(), "10 path graph should be read correctly");
}

#[test]
fn big_graph() {
    let g = Graph::from_graph6(&path_graph6(100, false)).unwrap();
    let expect = get_n_path_graph_adj_mat(100);
    assert_eq!(g.adjacency().rows(), expect.rows(), "100 path graph should be read correctly");
}

#[test]
fn big_graph_with_header() {
    let g = Graph::from_graph6(&path_graph6(100, true)).unwrap();
    let expect = get_n_path_graph_adj_mat(100);
    assert_eq!(
        g.adjacency().rows(),
        expect.rows(),
        "100 path graph with header should be read correctly"
    );
}

#[test]
fn graph_compute_walk() {
    let g = Graph::from_graph6(b"IhCGGC@?G").unwrap();
    let k = 3;
    let res = g.compute_walk_sum(k, create_vandermonde(g.num_vert(), k));
    let zero = ExTensor::zero();
    assert_ne!(res, zero, "compute walk with vandermonde coding should not be zero");
}

#[test]
fn compute_walk_2() {
    let g = Graph::from_graph6(b"IhCGGC@?G").unwrap();
    let k = 5;
    let res = g.compute_walk_sum(k, create_vandermonde(g.num_vert(), k));
    let zero = ExTensor::zero();
    assert_ne!(res, zero, "compute walk with vandermonde coding should not be zero");
}

#[test]
fn compute_walk_3() {
    let g = Graph::from_graph6(b"Bg").unwrap();
    let k = 5;
    let res = g.compute_walk_sum(k, create_vandermonde(g.num_vert(), k));
    assert_eq!(res.is_zero(), true, "compute walk with vandermonde coding should be zero");
}

#[test]
fn graph6_small_paths() {
    assert_eq!(Graph::from_graph6(b"Bg").unwrap().adjacency().rows(), get_n_path_graph_adj_mat(3).rows());
    assert_eq!(Graph::from_graph6(b"Ch").unwrap().adjacency().rows(), get_n_path_graph_adj_mat(4).rows());
    assert_eq!(Graph::from_graph6(&path_graph6(63, false)).unwrap().num_vert(), 63);
}

#[test]
fn graph6_malformed() {
    assert_eq!(Graph::from_graph6(b"").unwrap_err(), GraphError::MalformedInput);
    assert_eq!(Graph::from_graph6(b">>graph6<<").unwrap_err(), GraphError::MalformedInput);
    // ten vertices need eight body bytes
    assert_eq!(Graph::from_graph6(b"IhCGGC@?").unwrap_err(), GraphError::MalformedInput);
    // a byte below 63 in the body
    assert_eq!(Graph::from_graph6(b"Ih CGC@?G").unwrap_err(), GraphError::MalformedInput);
    // the long order form cut short
    assert_eq!(Graph::from_graph6(b"~?A").unwrap_err(), GraphError::MalformedInput);
    // sparse6 input is not graph6
    assert_eq!(Graph::from_graph6(b":Fa@x^").unwrap_err(), GraphError::MalformedInput);
    // zero and one vertex need no body
    assert_eq!(Graph::from_graph6(b"?").unwrap().num_vert(), 0);
    assert_eq!(Graph::from_graph6(b"@").unwrap().num_vert(), 1);
}

#[test]
fn graph_from_and_neighbors() {
    let g = Graph::from(3, vec![0, 1, 0, 0, 0, 1, 1, 0, 0]);
    assert_eq!(g.num_vert(), 3);
    assert_eq!(g.neighbors_of(0), vec![1]);
    assert_eq!(g.neighbors_of(1), vec![2]);
    assert_eq!(g.neighbors_of(2), vec![0]);
}

#[test]
fn tsv_edge_list() {
    let text = b"% bip unweighted\n% 14 5 5\n1 1\n1 2\n1 3\n2 2\n2 3\n3 1\n3 4\n3 5\n4 1\n4 2\n4 4\n5 3\n5 4\n5 5\n";
    let g = Graph::from_tsv(text).unwrap();
    let expect = Matrix::new(
        5,
        5,
        vec![
            1, 1, 1, 0, 0, 0, 1, 1, 0, 0, 1, 0, 0, 1, 1, 1, 1, 0, 1, 0, 0, 0, 1, 1, 1,
        ],
    );
    assert_eq!(g.adjacency().rows(), expect.rows(), "tsv reads correct adj_mat");
}

#[test]
fn tsv_comments_blank_lines_and_extra_columns() {
    let text = b"% directed\n% 3 3\n\n% a comment\n1 2 7 1234\n2\t3\r\n3 1";
    let g = Graph::from_tsv(text).unwrap();
    assert_eq!(g.num_vert(), 3);
    assert_eq!(g.neighbors_of(0), vec![1]);
    assert_eq!(g.neighbors_of(1), vec![2]);
    assert_eq!(g.neighbors_of(2), vec![0]);
}

#[test]
fn tsv_malformed() {
    // no second line
    assert_eq!(Graph::from_tsv(b"% only one line").unwrap_err(), GraphError::MalformedInput);
    // a rectangular matrix is no graph
    assert_eq!(Graph::from_tsv(b"% x\n% 3 4 5\n1 1\n").unwrap_err(), GraphError::MalformedInput);
    // a vertex out of range
    assert_eq!(Graph::from_tsv(b"% x\n% 2 3 3\n1 4\n").unwrap_err(), GraphError::MalformedInput);
    // vertices count from 1
    assert_eq!(Graph::from_tsv(b"% x\n% 2 3 3\n0 1\n").unwrap_err(), GraphError::MalformedInput);
    // a line with one number
    assert_eq!(Graph::from_tsv(b"% x\n% 2 3 3\n1\n").unwrap_err(), GraphError::MalformedInput);
    // not a number
    assert_eq!(Graph::from_tsv(b"% x\n% 2 3 3\n1 b\n").unwrap_err(), GraphError::MalformedInput);
}

#[test]
fn sparse6_order_is_read() {
    assert_eq!(Graph::sparse6_order(b":Fa@x^\n").unwrap(), 7);
    assert_eq!(Graph::sparse6_order(b">>sparse6<<:Fa@x^").unwrap(), 7);
    assert_eq!(Graph::sparse6_order(b":~?@c").unwrap(), 100);
    assert_eq!(Graph::sparse6_order(b"Fa@x^").unwrap_err(), GraphError::MalformedInput);
    assert_eq!(Graph::sparse6_order(b":").unwrap_err(), GraphError::MalformedInput);
    assert_eq!(Graph::sparse6_order(b">>sparse6<<").unwrap_err(), GraphError::MalformedInput);
}
