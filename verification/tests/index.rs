use zero::ivf::build_ivf;
use zero::search::Index;

/// A source of numbers for the tests.
struct Source(u64);

impl Source {
    fn next(&mut self) -> u64 {
        self.0 = self.0.wrapping_mul(6364136223846793005).wrapping_add(1442695040888963407);
        self.0 >> 33
    }

    fn below(&mut self, n: u64) -> u64 {
        self.next() % n
    }
}

struct Corpus {
    vecs: Vec<i16>,
    labels: Vec<u8>,
    k: u32,
    centroids: Vec<u32>,
    assignment: Vec<u32>,
    keys: Vec<u32>,
}

/// Vectors around a few centres, each in the cluster of the nearest one.
fn corpus(seed: u64, n: usize, k: u32, spread: u64) -> Corpus {
    let mut source = Source(seed);
    let mut centroids = Vec::new();
    for _ in 0..k as usize * 14 {
        centroids.push(source.below(10001) as f32);
    }
    let mut vecs = Vec::new();
    let mut labels = Vec::new();
    for _ in 0..n {
        let c = source.below(k as u64) as usize;
        for d in 0..14 {
            let x = centroids[c * 14 + d] as i64 + source.below(2 * spread + 1) as i64 - spread as i64;
            vecs.push(x.clamp(-10000, 10000) as i16);
        }
        labels.push((source.below(3) == 0) as u8);
    }
    let mut assignment = Vec::new();
    let mut keys = Vec::new();
    for i in 0..n {
        let mut best = (f32::INFINITY, 0);
        for c in 0..k as usize {
            let mut s = 0f32;
            for d in 0..14 {
                let diff = vecs[i * 14 + d] as f32 - centroids[c * 14 + d];
                s += diff * diff;
            }
            if s < best.0 {
                best = (s, c as u32);
            }
        }
        assignment.push(best.1);
        keys.push(best.0.to_bits());
    }
    let centroids = centroids.iter().map(|x| x.to_bits()).collect();
    Corpus { vecs, labels, k, centroids, assignment, keys }
}

fn build(s: &Corpus) -> Vec<u8> {
    build_ivf(&s.vecs, &s.labels, s.k, &s.centroids, &s.assignment, &s.keys)
}

/// The sums of labels that five nearest vectors can have.
fn nearest_sums(s: &Corpus, q: &[i16; 14]) -> (u8, u8) {
    let mut all: Vec<(u64, u8)> = (0..s.labels.len())
        .map(|i| {
            let d = (0..14)
                .map(|d| {
                    let x = s.vecs[i * 14 + d] as i64 - q[d] as i64;
                    (x * x) as u64
                })
                .sum();
            (d, s.labels[i])
        })
        .collect();
    all.sort();
    let mut least: Vec<u8> = all.iter().take(5).map(|x| x.1).collect();
    let low = least.iter().sum();
    all.sort_by(|a, b| a.0.cmp(&b.0).then(b.1.cmp(&a.1)));
    least = all.iter().take(5).map(|x| x.1).collect();
    (low, least.iter().sum())
}

fn query(source: &mut Source, s: &Corpus) -> [i16; 14] {
    let i = source.below(s.labels.len() as u64) as usize;
    let mut q = [0i16; 14];
    for d in 0..14 {
        let x = s.vecs[i * 14 + d] as i64 + source.below(401) as i64 - 200;
        q[d] = x.clamp(-10000, 10000) as i16;
    }
    q
}

#[test]
fn built_bytes() {
    // Two clusters: three vectors in the second, none in the first.
    let mut vecs = Vec::new();
    for i in 0..3i16 {
        for d in 0..14i16 {
            vecs.push(100 * i - d);
        }
    }
    let mut centroids = vec![0.4f32.to_bits(); 14];
    centroids.extend(vec![(-1.5f32).to_bits(); 14]);
    let raw = build_ivf(&vecs, &[7, 8, 9], 2, &centroids, &[1, 1, 1], &[30, 10, 20]);
    assert_eq!(raw.len(), 68 + 92 * 2 + 232);
    assert_eq!(&raw[0..8], b"RH26ZERO");
    assert_eq!(&raw[8..32], &[1, 0, 0, 0, 3, 0, 0, 0, 2, 0, 0, 0, 1, 0, 0, 0, 8, 0, 0, 0, 14, 0, 0, 0]);
    assert!(raw[32..64].iter().all(|&b| b == 0));
    let i16s = |at: usize, n: usize| -> Vec<i16> {
        (0..n).map(|i| i16::from_le_bytes([raw[at + 2 * i], raw[at + 2 * i + 1]])).collect()
    };
    // centroids
    assert_eq!(i16s(64, 14), vec![0; 14]);
    assert_eq!(i16s(92, 14), vec![-2; 14]);
    // boxes: zeros for the empty cluster
    assert_eq!(i16s(120, 14), vec![0; 14]);
    assert_eq!(i16s(148, 14), (0..14).map(|d| -d).collect::<Vec<i16>>());
    assert_eq!(i16s(176, 14), vec![0; 14]);
    assert_eq!(i16s(204, 14), (0..14).map(|d| 200 - d).collect::<Vec<i16>>());
    // block offsets and counts
    assert_eq!(&raw[232..252], &[0, 0, 0, 0, 0, 0, 0, 0, 1, 0, 0, 0, 0, 0, 0, 0, 3, 0, 0, 0]);
    // labels, nearest to the centroid first
    assert_eq!(&raw[252..260], &[8, 9, 7, 0, 0, 0, 0, 0]);
    // the first pair of coordinates of each lane
    assert_eq!(
        i16s(260, 16),
        vec![100, 99, 200, 199, 0, -1, 0, 0, 0, 0, 0, 0, 0, 0, 0, 0]
    );
    // the last pair
    assert_eq!(
        i16s(260 + 6 * 32, 16),
        vec![88, 87, 188, 187, -12, -13, 0, 0, 0, 0, 0, 0, 0, 0, 0, 0]
    );
}

#[test]
fn equal_keys_keep_their_order() {
    let vecs: Vec<i16> = (0..4 * 14).map(|i| (i / 14) as i16).collect();
    let raw = build_ivf(&vecs, &[1, 2, 3, 4], 1, &[0; 14], &[0, 0, 0, 0], &[5, 5, 1, 5]);
    assert_eq!(&raw[68 + 92..68 + 92 + 8], &[3, 1, 2, 4, 0, 0, 0, 0]);
}

#[test]
fn empty_index() {
    let raw = build_ivf(&[], &[], 0, &[], &[], &[]);
    assert_eq!(raw.len(), 68);
    let index = Index::from_bytes(&raw).unwrap();
    assert_eq!((index.k, index.n, index.total_blocks), (0, 0, 0));
    assert_eq!(index.search(&[0; 14], 12, 1, 4, false), 0);
    assert_eq!(index.try_search(&[0; 14], 12, 1, 4, true), None);
}

#[test]
fn built_indexes_can_be_searched() {
    let s = corpus(3, 500, 16, 900);
    let raw = build(&s);
    let index = Index::from_bytes(&raw).unwrap();
    assert_eq!((index.k, index.n), (16, 500));
    assert_eq!(index.n_groups, 2);
    // the counts of the clusters add up
    let counts = 68 + 88 * 16;
    let total: u32 = (0..16)
        .map(|c| {
            let at = counts + 4 * c;
            u32::from_le_bytes([raw[at], raw[at + 1], raw[at + 2], raw[at + 3]])
        })
        .sum();
    assert_eq!(total, 500);
    for wide in [false, true] {
        assert!(index.try_search(&[0; 14], 12, 0, 5, wide).is_some());
    }
}

#[test]
fn full_range_of_repair_is_exact() {
    let mut source = Source(99);
    for (seed, n, k, spread) in [(1, 400, 8, 1500), (2, 700, 24, 4000), (3, 60, 5, 300), (4, 3, 2, 50)] {
        let s = corpus(seed, n, k, spread);
        let raw = build(&s);
        let index = Index::from_bytes(&raw).unwrap();
        for _ in 0..150 {
            let q = query(&mut source, &s);
            let (low, high) = nearest_sums(&s, &q);
            for nprobe in [1, 2, 12] {
                for wide in [false, true] {
                    let r = index.search(&q, nprobe, 0, 5, wide);
                    assert!(low <= r && r <= high, "{r} {low} {high} {nprobe} {wide}");
                }
            }
        }
    }
}

#[test]
fn results_in_the_range_of_repair_are_exact() {
    let mut source = Source(5);
    let s = corpus(11, 900, 32, 5000);
    let raw = build(&s);
    let index = Index::from_bytes(&raw).unwrap();
    for _ in 0..400 {
        let q = query(&mut source, &s);
        let (low, high) = nearest_sums(&s, &q);
        let r = index.search(&q, 1, 1, 4, false);
        if (1..=4).contains(&r) {
            assert!(low <= r && r <= high);
        }
    }
}

#[test]
fn lanes_and_single_vectors_agree() {
    let mut source = Source(17);
    let s = corpus(21, 600, 16, 3000);
    let raw = build(&s);
    let index = Index::from_bytes(&raw).unwrap();
    for _ in 0..300 {
        let q = query(&mut source, &s);
        let (low, high) = nearest_sums(&s, &q);
        let a = index.search(&q, 16, 1, 4, false);
        let b = index.search(&q, 16, 1, 4, true);
        assert!(low <= a && a <= high);
        assert!(low <= b && b <= high);
    }
}

#[test]
fn more_than_five_labels_of_one() {
    // All vectors alike: five labels of one.
    let vecs = vec![3i16; 14 * 40];
    let raw = build_ivf(&vecs, &[1; 40], 2, &[0; 28], &[0; 40], &[0; 40]);
    let index = Index::from_bytes(&raw).unwrap();
    assert_eq!(index.search(&[3; 14], 1, 1, 4, false), 5);
    assert_eq!(index.search(&[3; 14], 1, 1, 4, true), 5);
}

#[test]
fn bytes_that_are_no_index() {
    let s = corpus(8, 30, 3, 200);
    let raw = build(&s);
    assert!(Index::from_bytes(&raw).is_some());
    assert!(Index::from_bytes(&raw[..63]).is_none());
    assert!(Index::from_bytes(&raw[..raw.len() - 1]).is_none());
    assert!(Index::from_bytes(&[]).is_none());
    for at in [0, 7, 8, 24, 28] {
        let mut bad = raw.clone();
        bad[at] ^= 1;
        assert!(Index::from_bytes(&bad).is_none(), "{at}");
    }
    let mut longer = raw.clone();
    longer.push(0);
    assert!(Index::from_bytes(&longer).is_some());
}

#[test]
fn clusters_behind_the_bytes() {
    // ten vectors near the origin, and ten far from it
    let vecs: Vec<i16> = (0..20 * 14).map(|i| if i < 140 { i % 7 } else { 9000 + i % 7 } as i16).collect();
    let mut bits = vec![0f32.to_bits(); 14];
    bits.extend([9000f32.to_bits(); 14]);
    let assignment: Vec<u32> = (0..20).map(|i| i / 10).collect();
    let mut raw = build_ivf(&vecs, &[0; 20], 2, &bits, &assignment, &[0; 20]);
    // the count of the far cluster reaches behind the bytes
    raw[68 + 88 * 2 + 4 + 3] = 1;
    let index = Index::from_bytes(&raw).unwrap();
    let near = [0i16; 14];
    let far = [9000i16; 14];
    for wide in [false, true] {
        // the far cluster is not reached
        assert_eq!(index.try_search(&near, 1, 1, 4, wide), Some(0));
        assert_eq!(index.search(&near, 1, 1, 4, wide), 0);
        // neither by a repair, since its box is too far
        assert_eq!(index.try_search(&near, 1, 0, 5, wide), Some(0));
        // the far cluster is probed first
        assert_eq!(index.try_search(&far, 1, 1, 4, wide), None);
    }
    // a second probe passes a box over that is too far, but lanes do not
    assert_eq!(index.try_search(&near, 2, 1, 4, false), Some(0));
    assert_eq!(index.try_search(&near, 2, 1, 4, true), None);
    assert_eq!(index.search_fast(&near, 2).map(|r| r.0), Some(0));
    assert_eq!(index.search_fast(&far, 1), None);
}

#[test]
fn sums_of_labels_wrap_around() {
    let s = corpus(8, 30, 3, 200);
    let mut raw = build(&s);
    // every label, the padding of blocks among them
    let blocks = u32::from_le_bytes([raw[20], raw[21], raw[22], raw[23]]) as usize;
    let labels = 68 + 92 * 3;
    for (label, sum) in [(51u8, 255u8), (52, 4), (100, 244), (255, 251)] {
        for i in 0..blocks * 8 {
            raw[labels + i] = label;
        }
        let index = Index::from_bytes(&raw).unwrap();
        for wide in [false, true] {
            assert_eq!(index.search(&[0; 14], 3, 1, 4, wide), sum);
        }
    }
}

#[test]
fn both_ways_agree_where_distances_differ() {
    let mut source = Source(31);
    let s = corpus(41, 500, 12, 2500);
    let raw = build(&s);
    let index = Index::from_bytes(&raw).unwrap();
    let mut compared = 0;
    for _ in 0..300 {
        let q = query(&mut source, &s);
        let mut distances: Vec<u64> = (0..s.labels.len())
            .map(|i| {
                (0..14)
                    .map(|d| {
                        let x = s.vecs[i * 14 + d] as i64 - q[d] as i64;
                        (x * x) as u64
                    })
                    .sum()
            })
            .collect();
        distances.sort();
        if distances.windows(2).any(|w| w[0] == w[1]) || distances[499] >= 0x7fff_ffff {
            continue;
        }
        compared += 1;
        let r = index.search(&q, 1, 0, 5, false);
        for nprobe in [1, 3, 12, 64] {
            assert_eq!(index.search(&q, nprobe, 0, 5, true), r);
            assert_eq!(index.search(&q, nprobe, 0, 5, false), r);
        }
    }
    assert!(compared > 50);
}

#[test]
fn features_at_the_ends_of_their_ranges() {
    // The greatest distance that features can have is below that of an empty
    // place, so every vector is found.
    let far = [10000i16, 10000, 10000, 10000, 10000, 10000, 10000, 10000, 10000, 10000, 10000, 10000, 10000, 10000];
    let mut q = [0i16; 14];
    q[5] = -10000;
    q[6] = -10000;
    let bits: Vec<u32> = far.iter().map(|&x| (x as f32).to_bits()).collect();
    let mut vecs = Vec::new();
    for _ in 0..3 {
        vecs.extend(far);
    }
    let raw = build_ivf(&vecs, &[1, 1, 1], 1, &bits, &[0, 0, 0], &[0, 0, 0]);
    let index = Index::from_bytes(&raw).unwrap();
    for wide in [false, true] {
        assert_eq!(index.search(&q, 1, 0, 5, wide), 3);
    }
}
