//! The mean of the trial statistic, divided by k!, estimates the number of
//! k-paths; these check it on graphs with known counts.

use extensor_coding::algorithm::bernoulli_trial;
use extensor_coding::graph::Graph;
use extensor_coding::utils::factorial;

fn mean_estimate(g: &Graph, k: usize, trials: usize) -> f64 {
    let mut sum = 0.0;
    for _ in 0..trials {
        sum += bernoulli_trial(g, k) as f64;
    }
    sum / trials as f64 / factorial(k) as f64
}

fn within(res: f64, p: f64, eps: f64) -> bool {
    (1.0 - eps) * p <= res && res <= (1.0 + eps) * p
}

fn undirected_path(n: usize) -> Graph {
    let mut data = vec![0u8; n * n];
    for i in 0..n - 1 {
        data[i * n + i + 1] = 1;
        data[(i + 1) * n + i] = 1;
    }
    Graph::from(n, data)
}

#[test]
fn estimate_directed_triangle_two_paths() {
    let g = Graph::from(3, vec![0, 1, 0, 0, 0, 1, 1, 0, 0]);
    let res = mean_estimate(&g, 2, 400);
    assert!(within(res, 3.0, 0.5), "estimate {}", res);
}

#[test]
fn estimate_path3_three_paths() {
    let g = Graph::from_graph6(b"Bg").unwrap();
    let res = mean_estimate(&g, 3, 400);
    assert!(within(res, 2.0, 0.5), "estimate {}", res);
}

#[test]
fn estimate_path6_three_paths() {
    let g = undirected_path(6);
    let res = mean_estimate(&g, 3, 400);
    assert!(within(res, 8.0, 0.5), "estimate {}", res);
}

#[test]
fn estimate_complete_ten_three_paths() {
    let n = 10;
    let mut data = vec![1u8; n * n];
    for i in 0..n {
        data[i * n + i] = 0;
    }
    let g = Graph::from(n, data);
    let res = mean_estimate(&g, 3, 100);
    assert!(within(res, 720.0, 0.8), "estimate {}", res);
}

#[test]
fn estimate_binary_tree_two_paths() {
    let g = Graph::from(
        7,
        vec![
            0, 1, 0, 0, 1, 0, 0, // root
            0, 0, 1, 1, 0, 0, 0, //
            0, 0, 0, 0, 0, 0, 0, //
            0, 0, 0, 0, 0, 0, 0, //
            0, 0, 0, 0, 0, 1, 1, //
            0, 0, 0, 0, 0, 0, 0, //
            0, 0, 0, 0, 0, 0, 0, //
        ],
    );
    let res = mean_estimate(&g, 2, 600);
    assert!(within(res, 6.0, 0.2), "estimate {}", res);
}

#[test]
fn estimate_triangle_four_paths_is_zero() {
    let g = Graph::from(3, vec![0, 1, 0, 0, 0, 1, 1, 0, 0]);
    assert_eq!(mean_estimate(&g, 4, 50), 0.0);
}
