use std::collections::HashSet;
use std::sync::atomic::{AtomicUsize, Ordering};
use std::sync::Mutex;

use diagonal_search::{diagonal_bruteforce_core, process_layer_cpu, DummyStrategy, LoginStrategy};

/// Accepts the listed pairs and records every trial.
struct Recording {
    accept: Vec<(String, String)>,
    tried: Mutex<Vec<(String, String)>>,
}

impl Recording {
    fn new(accept: &[(&str, &str)]) -> Self {
        Recording {
            accept: accept.iter().map(|&(u, p)| (u.to_string(), p.to_string())).collect(),
            tried: Mutex::new(Vec::new()),
        }
    }

    fn tried(&self) -> Vec<(String, String)> {
        self.tried.lock().unwrap().clone()
    }
}

impl LoginStrategy for Recording {
    fn attempt(&self, user: &str, pass: &str) -> bool {
        self.tried.lock().unwrap().push((user.to_string(), pass.to_string()));
        self.accept.iter().any(|(u, p)| u == user && p == pass)
    }
}

fn trial<S: LoginStrategy>(s: &S) -> impl Fn(&str, &str) -> bool + Sync + '_ {
    move |user: &str, pass: &str| s.attempt(user, pass)
}

fn names(prefix: &str, k: usize) -> Vec<String> {
    (0..k).map(|i| format!("{}{}", prefix, i)).collect()
}

fn refs(v: &[String]) -> Vec<&str> {
    v.iter().map(|s| s.as_str()).collect()
}

fn index_of(v: &[&str], s: &str) -> usize {
    v.iter().position(|x| *x == s).unwrap()
}

#[test]
fn single_success_found_and_stops_early() {
    let users = names("u", 5);
    let passes = names("p", 6);
    let (u, p) = (refs(&users), refs(&passes));
    for threads in [0usize, 1, 2, 4] {
        let pred = Recording::new(&[("u2", "p3")]);
        let ticks = AtomicUsize::new(0);
        let r = diagonal_bruteforce_core(&u, &p, threads, &trial(&pred), &|| {
            ticks.fetch_add(1, Ordering::SeqCst);
        });
        assert_eq!(r, Some((2, 3)));
        let tried = pred.tried();
        assert_eq!(ticks.load(Ordering::SeqCst), tried.len());
        for (tu, tp) in &tried {
            assert!(index_of(&u, tu) + index_of(&p, tp) <= 5);
        }
        let below: usize = (0..5).map(|i| (0..6).filter(|j| i + j < 5).count()).sum();
        assert!(tried.len() > below);
    }
}

#[test]
fn no_success_tries_every_pair_once() {
    let users = names("u", 4);
    let passes = names("p", 7);
    let (u, p) = (refs(&users), refs(&passes));
    for threads in [0usize, 1, 3] {
        let pred = Recording::new(&[]);
        let ticks = AtomicUsize::new(0);
        let r = diagonal_bruteforce_core(&u, &p, threads, &trial(&pred), &|| {
            ticks.fetch_add(1, Ordering::SeqCst);
        });
        assert_eq!(r, None);
        let tried = pred.tried();
        assert_eq!(tried.len(), 28);
        assert_eq!(ticks.load(Ordering::SeqCst), 28);
        let distinct: HashSet<_> = tried.iter().cloned().collect();
        assert_eq!(distinct.len(), 28);
    }
}

#[test]
fn one_worker_prefers_lower_diagonal() {
    let users = names("u", 4);
    let passes = names("p", 4);
    let (u, p) = (refs(&users), refs(&passes));
    for _ in 0..20 {
        let pred = Recording::new(&[("u3", "p3"), ("u1", "p2")]);
        let r = diagonal_bruteforce_core(&u, &p, 1, &trial(&pred), &|| {});
        assert_eq!(r, Some((1, 2)));
    }
}

#[test]
fn one_worker_walks_in_order() {
    let users = names("u", 3);
    let passes = names("p", 3);
    let (u, p) = (refs(&users), refs(&passes));
    let pred = Recording::new(&[("u2", "p0"), ("u1", "p1")]);
    let r = diagonal_bruteforce_core(&u, &p, 1, &trial(&pred), &|| {});
    assert_eq!(r, Some((1, 1)));
    let order: Vec<(usize, usize)> = pred
        .tried()
        .iter()
        .map(|(a, b)| (index_of(&u, a), index_of(&p, b)))
        .collect();
    assert_eq!(order, vec![(0, 0), (0, 1), (1, 0), (0, 2), (1, 1)]);
}

#[test]
fn many_workers_lower_diagonal_wins() {
    let users = names("u", 6);
    let passes = names("p", 6);
    let (u, p) = (refs(&users), refs(&passes));
    for threads in [0usize, 4] {
        let pred = Recording::new(&[("u5", "p5"), ("u0", "p4")]);
        let r = diagonal_bruteforce_core(&u, &p, threads, &trial(&pred), &|| {});
        assert_eq!(r, Some((0, 4)));
    }
}

#[test]
fn simultaneous_successes_give_one_result() {
    let users = names("u", 8);
    let passes = names("p", 8);
    let (u, p) = (refs(&users), refs(&passes));
    let winners = [("u1", "p6"), ("u3", "p4"), ("u5", "p2"), ("u7", "p0")];
    for _ in 0..50 {
        let pred = Recording::new(&winners);
        let r = diagonal_bruteforce_core(&u, &p, 4, &trial(&pred), &|| {});
        let (i, j) = r.unwrap();
        assert!(winners.contains(&(u[i], p[j])));
        assert_eq!(i + j, 7);
    }
}

#[test]
fn empty_collections_are_exhausted_at_once() {
    let users = names("u", 3);
    let u = refs(&users);
    let none: Vec<&str> = Vec::new();
    for threads in [0usize, 1, 2] {
        let pred = Recording::new(&[("u0", "x")]);
        let ticks = AtomicUsize::new(0);
        let progress = || {
            ticks.fetch_add(1, Ordering::SeqCst);
        };
        assert_eq!(diagonal_bruteforce_core(&u, &none, threads, &trial(&pred), &progress), None);
        assert_eq!(diagonal_bruteforce_core(&none, &u, threads, &trial(&pred), &progress), None);
        assert_eq!(diagonal_bruteforce_core(&none, &none, threads, &trial(&pred), &progress), None);
        assert!(pred.tried().is_empty());
        assert_eq!(ticks.load(Ordering::SeqCst), 0);
    }
}

#[test]
fn single_cell_grid() {
    let u = vec!["admin"];
    let p = vec!["hunter2"];
    let pred = Recording::new(&[("admin", "hunter2")]);
    assert_eq!(diagonal_bruteforce_core(&u, &p, 0, &trial(&pred), &|| {}), Some((0, 0)));
    assert_eq!(diagonal_bruteforce_core(&u, &p, 1, &trial(&pred), &|| {}), Some((0, 0)));
}

#[test]
fn dummy_strategy_never_succeeds() {
    let d = DummyStrategy::new();
    assert!(!d.attempt("root", "toor"));
    let u = vec!["a", "b"];
    let p = vec!["c", "d", "e"];
    let ticks = AtomicUsize::new(0);
    let r = diagonal_bruteforce_core(&u, &p, 2, &trial(&d), &|| {
        ticks.fetch_add(1, Ordering::SeqCst);
    });
    assert_eq!(r, None);
    assert_eq!(ticks.load(Ordering::SeqCst), 6);
}

#[test]
fn layer_pass_reports_accepted_pair() {
    let u = vec!["a", "b", "c"];
    let p = vec!["x", "y", "z"];
    let layer = [(0usize, 2usize), (1, 1), (2, 0)];
    let pred = Recording::new(&[("b", "y")]);
    assert_eq!(process_layer_cpu(&layer, &u, &p, &trial(&pred), &|| {}), Some((1, 1)));
    let none = Recording::new(&[("a", "x")]);
    assert_eq!(process_layer_cpu(&layer, &u, &p, &trial(&none), &|| {}), None);
    assert_eq!(none.tried().len(), 3);
}
