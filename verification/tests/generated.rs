use symscan::{symdel_cross, symdel_within, CachedRef, SparseDistMatrix};

const ALPHABET: &[u8] = b"ACDEFGHIKLMNPQRSTVWY";

/// A small generator of repeatable numbers.
struct Numbers(u64);

impl Numbers {
    fn next(&mut self) -> u64 {
        self.0 = self.0.wrapping_mul(6364136223846793005).wrapping_add(1442695040888963407);
        self.0 >> 33
    }

    fn below(&mut self, n: u64) -> u64 {
        self.next() % n
    }
}

/// Strings that look like receptor sequences: a few stems, each varied by a
/// few random edits, so that many of them are close to each other.
fn sequences(seed: u64, count: usize) -> Vec<Vec<u8>> {
    let mut shared = Numbers(99);
    let mut stems: Vec<Vec<u8>> = Vec::new();
    for _ in 0..12 {
        let len = 8 + shared.below(8) as usize;
        stems.push((0..len).map(|_| ALPHABET[shared.below(20) as usize]).collect());
    }
    let mut numbers = Numbers(seed);
    let mut out = Vec::new();
    for _ in 0..count {
        let mut s = stems[numbers.below(12) as usize].clone();
        for _ in 0..numbers.below(4) {
            let at = numbers.below(s.len() as u64) as usize;
            match numbers.below(3) {
                0 => s[at] = ALPHABET[numbers.below(20) as usize],
                1 => {
                    if s.len() > 1 {
                        s.remove(at);
                    }
                }
                _ => s.insert(at, ALPHABET[numbers.below(20) as usize]),
            }
        }
        out.push(s);
    }
    out
}

fn distance(a: &[u8], b: &[u8]) -> usize {
    let mut prev: Vec<usize> = (0..=b.len()).collect();
    for i in 1..=a.len() {
        let mut cur = vec![i; b.len() + 1];
        for j in 1..=b.len() {
            let sub = prev[j - 1] + if a[i - 1] == b[j - 1] { 0 } else { 1 };
            cur[j] = sub.min(prev[j] + 1).min(cur[j - 1] + 1);
        }
        prev = cur;
    }
    prev[b.len()]
}

fn brute_force(query: &[Vec<u8>], reference: &[Vec<u8>], k: u8, within: bool) -> SparseDistMatrix {
    let mut m = SparseDistMatrix { row: vec![], col: vec![], dists: vec![] };
    for (i, a) in query.iter().enumerate() {
        for (j, b) in reference.iter().enumerate() {
            if within && i >= j {
                continue;
            }
            if a.len().abs_diff(b.len()) > k as usize {
                continue;
            }
            let d = distance(a, b);
            if d <= k as usize {
                m.row.push(i as u32);
                m.col.push(j as u32);
                m.dists.push(d as u8);
            }
        }
    }
    m
}

#[test]
fn generated_sequences_within_at_one() {
    let strings = sequences(1, 400);
    let result = symdel_within(&strings, 1).expect("short input");
    assert!(result.len() > 100);
    assert_eq!(result, brute_force(&strings, &strings, 1, true));
}

#[test]
fn generated_sequences_within_at_two() {
    let strings = sequences(2, 300);
    let result = symdel_within(&strings, 2).expect("short input");
    assert!(result.len() > 100);
    assert_eq!(result, brute_force(&strings, &strings, 2, true));
}

#[test]
fn generated_sequences_cross_at_one_and_two() {
    let query = sequences(3, 250);
    let reference = sequences(4, 200);
    for k in [1u8, 2] {
        let result = symdel_cross(&query, &reference, k).expect("valid inputs");
        assert!(result.len() > 10);
        assert_eq!(result, brute_force(&query, &reference, k, false));
    }
}

#[test]
fn generated_sequences_cached() {
    let query = sequences(5, 200);
    let reference = sequences(6, 250);
    let cached = CachedRef::new(&reference, 2).expect("short input");
    let cached_query = CachedRef::new(&query, 2).expect("short input");
    for k in [1u8, 2] {
        let within = brute_force(&reference, &reference, k, true);
        let cross = brute_force(&query, &reference, k, false);
        assert_eq!(cached.symdel_within(k).expect("legal max distance"), within);
        assert_eq!(cached.symdel_cross(&query, k).expect("legal max distance"), cross);
        assert_eq!(
            cached.symdel_cross_against_cached(&cached_query, k).expect("legal max distance"),
            cross
        );
    }
}
