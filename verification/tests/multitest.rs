use quant_research_framework_rs::multitest::{step_down_mask, step_up_mask};

/// Ascending p-value order, ties by index.
fn argsort(p: &[f64]) -> Vec<usize> {
    let mut order: Vec<usize> = (0..p.len()).collect();
    order.sort_by(|&a, &b| p[a].partial_cmp(&p[b]).unwrap().then(a.cmp(&b)));
    order
}

fn holm(p: &[f64], alpha: f64) -> Vec<bool> {
    let n = p.len();
    let order = argsort(p);
    let passes: Vec<bool> = order.iter().enumerate().map(|(i, &o)| p[o] <= alpha / ((n - i) as f64)).collect();
    step_down_mask(&order, &passes)
}

fn bh_fdr(p: &[f64], alpha: f64) -> Vec<bool> {
    let n = p.len();
    let order = argsort(p);
    let passes: Vec<bool> =
        order.iter().enumerate().map(|(k, &o)| p[o] <= alpha * ((k + 1) as f64) / (n as f64)).collect();
    step_up_mask(&order, &passes)
}

#[test]
fn holm_step_down_breaks() {
    let p = [0.001, 0.013, 0.2, 0.5];
    assert_eq!(holm(&p, 0.05), vec![true, true, false, false]);
}

#[test]
fn bh_fdr_largest_index() {
    let p = [0.001, 0.008, 0.039, 0.5];
    assert_eq!(bh_fdr(&p, 0.05), vec![true, true, false, false]);
}

#[test]
fn step_down_stops_at_first_failure() {
    // Walk order 2, 0, 3, 1: ranks 0 and 1 pass, rank 2 fails, rank 3 passes.
    let order = [2usize, 0, 3, 1];
    let passes = [true, true, false, true];
    assert_eq!(step_down_mask(&order, &passes), vec![true, false, true, false]);
}

#[test]
fn step_up_rejects_through_last_pass() {
    let order = [2usize, 0, 3, 1];
    let passes = [false, true, false, false];
    assert_eq!(step_up_mask(&order, &passes), vec![true, false, true, false]);
    let none = [false, false, false, false];
    assert_eq!(step_up_mask(&order, &none), vec![false; 4]);
    let last = [false, false, false, true];
    assert_eq!(step_up_mask(&order, &last), vec![true; 4]);
}

#[test]
fn step_up_rejects_all_that_step_down_rejects() {
    let order = [1usize, 3, 0, 2, 4];
    for bits in 0u32..32 {
        let passes: Vec<bool> = (0..5).map(|k| bits & (1 << k) != 0).collect();
        let down = step_down_mask(&order, &passes);
        let up = step_up_mask(&order, &passes);
        for i in 0..5 {
            assert!(!down[i] || up[i]);
        }
    }
}

#[test]
fn empty_family_rejects_nothing() {
    assert!(step_down_mask(&[], &[]).is_empty());
    assert!(step_up_mask(&[], &[]).is_empty());
}
