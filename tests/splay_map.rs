use splay::laws::{replay, Op};
use splay::Splay;
use std::collections::BTreeMap;

fn entries(tree: &Splay<i32, i32>) -> Vec<(i32, i32)> {
    let mut out = Vec::new();
    let mut it = tree.iter();
    while let Some((k, v)) = it.next() {
        out.push((*k, *v));
    }
    out
}

/// A small deterministic generator (xorshift).
struct Rng(u64);

impl Rng {
    fn next(&mut self) -> u64 {
        let mut x = self.0;
        x ^= x << 13;
        x ^= x >> 7;
        x ^= x << 17;
        self.0 = x;
        x
    }

    fn below(&mut self, n: u64) -> u64 {
        self.next() % n
    }
}

#[test]
fn basic_test() {
    let mut tree: Splay<i32, i32> = Splay::new();
    tree.set(1, 1);
    tree.set(2, 2);
    assert_eq!(tree.get(1), Some(&1));
    assert_eq!(tree.get(2), Some(&2));
    assert_eq!(tree.get(3), None);
    tree.set(2, 1);
    assert_eq!(tree.get(2), Some(&1));
    assert_eq!(entries(&tree), vec![(1, 1), (2, 1)]);
}

#[test]
fn depth_test() {
    let mut rng = Rng(0x9e37_79b9_7f4a_7c15);
    let mut tree: Splay<i32, i32> = Splay::new();
    let mut keys: Vec<i32> = (1..100000).collect();
    for i in (1..keys.len()).rev() {
        let j = rng.below(i as u64 + 1) as usize;
        keys.swap(i, j);
    }
    for key in keys {
        tree.set(key, key);
    }

    let depth = tree.depth();
    println!("depth: {}", depth);
    assert!(depth < 50);
}

#[test]
fn empty_tree() {
    let mut tree: Splay<i32, i32> = Splay::new();
    assert_eq!(tree.depth(), 0);
    assert_eq!(entries(&tree), vec![]);
    assert_eq!(tree.get(0), None);
    assert_eq!(tree.get(i32::MIN), None);
    assert_eq!(tree.get(i32::MAX), None);
    assert_eq!(tree.depth(), 0);
}

#[test]
fn single_entry() {
    let mut tree: Splay<i32, &str> = Splay::new();
    tree.set(7, "seven");
    assert_eq!(tree.depth(), 1);
    assert_eq!(tree.get(7), Some(&"seven"));
    assert_eq!(tree.get(6), None);
    assert_eq!(tree.get(8), None);
    assert_eq!(tree.depth(), 1);
}

#[test]
fn update_keeps_one_entry() {
    let mut tree: Splay<i32, i32> = Splay::new();
    tree.set(5, 10);
    tree.set(3, 30);
    tree.set(5, 20);
    assert_eq!(tree.get(5), Some(&20));
    assert_eq!(entries(&tree), vec![(3, 30), (5, 20)]);
}

#[test]
fn iteration_is_sorted() {
    let mut tree: Splay<i32, i32> = Splay::new();
    for k in [50, 20, 80, 10, 30, 70, 90, 60, 40, 20, 50] {
        tree.set(k, -k);
    }
    tree.get(30);
    tree.get(90);
    tree.get(45);
    let got = entries(&tree);
    let want: Vec<(i32, i32)> = [10, 20, 30, 40, 50, 60, 70, 80, 90].iter().map(|k| (*k, -*k)).collect();
    assert_eq!(got, want);
}

#[test]
fn iteration_does_not_change_the_tree() {
    let mut tree: Splay<i32, i32> = Splay::new();
    for k in 0..100 {
        tree.set((k * 37) % 101, k);
    }
    let depth = tree.depth();
    let first = entries(&tree);
    let second = entries(&tree);
    assert_eq!(first, second);
    assert_eq!(first.len(), 100);
    assert_eq!(tree.depth(), depth);
}

#[test]
fn ascending_inserts_make_a_path() {
    // Each new largest key is splayed to the root, leaving the rest on its left.
    let mut tree: Splay<i32, i32> = Splay::new();
    for k in 0..10 {
        tree.set(k, k);
    }
    assert_eq!(tree.depth(), 10);
    // Looking up the least key splays it to the root with four zig-zig steps and one
    // zig, which leaves a tree of height 7.
    assert_eq!(tree.get(0), Some(&0));
    assert_eq!(tree.depth(), 7);
}

#[test]
fn agrees_with_a_reference_map() {
    let mut rng = Rng(12345);
    let mut tree: Splay<i32, i32> = Splay::new();
    let mut map: BTreeMap<i32, i32> = BTreeMap::new();
    for _ in 0..20000 {
        let k = rng.below(500) as i32 - 250;
        match rng.below(3) {
            0 => {
                let v = rng.next() as i32;
                tree.set(k, v);
                map.insert(k, v);
            }
            1 => {
                assert_eq!(tree.get(k), map.get(&k));
            }
            _ => {
                let want: Vec<(i32, i32)> = map.iter().map(|(k, v)| (*k, *v)).collect();
                assert_eq!(entries(&tree), want);
            }
        }
    }
}

#[test]
fn string_keys() {
    let mut tree: Splay<String, usize> = Splay::new();
    for w in ["pear", "apple", "fig", "apple", "kiwi"] {
        let n = w.len();
        tree.set(w.to_string(), n);
    }
    assert_eq!(tree.get("fig".to_string()), Some(&3));
    assert_eq!(tree.get("plum".to_string()), None);
    let mut keys = Vec::new();
    let mut it = tree.iter();
    while let Some((k, _)) = it.next() {
        keys.push(k.clone());
    }
    assert_eq!(keys, vec!["apple", "fig", "kiwi", "pear"]);
}

#[test]
fn replay_matches_a_reference_map() {
    let ops = vec![
        Op::Get(1),
        Op::Put(1, 1),
        Op::Put(2, 2),
        Op::Get(1),
        Op::Get(2),
        Op::Get(3),
        Op::Put(2, 1),
        Op::Get(2),
    ];
    assert_eq!(replay(&ops), vec![None, Some(1), Some(2), None, Some(1)]);

    let mut rng = Rng(777);
    let mut ops: Vec<Op<i32, i32>> = Vec::new();
    let mut want: Vec<Option<i32>> = Vec::new();
    let mut map: BTreeMap<i32, i32> = BTreeMap::new();
    for _ in 0..5000 {
        let k = rng.below(100) as i32;
        if rng.below(2) == 0 {
            let v = rng.next() as i32;
            map.insert(k, v);
            ops.push(Op::Put(k, v));
        } else {
            want.push(map.get(&k).copied());
            ops.push(Op::Get(k));
        }
    }
    assert_eq!(replay(&ops), want);
}

#[test]
fn missing_key_splays_its_neighbour() {
    let mut tree: Splay<i32, i32> = Splay::new();
    for k in 0..10 {
        tree.set(k, k);
    }
    // The search for 100 ends at the root, 9: nothing moves.
    assert_eq!(tree.get(100), None);
    assert_eq!(tree.depth(), 10);
    // The search for -1 ends at 0, the least key, which is splayed as a hit would be.
    assert_eq!(tree.get(-1), None);
    assert_eq!(tree.depth(), 7);
    assert_eq!(tree.get(0), Some(&0));
    assert_eq!(tree.depth(), 7);
    let want: Vec<(i32, i32)> = (0..10).map(|k| (k, k)).collect();
    assert_eq!(entries(&tree), want);
}
