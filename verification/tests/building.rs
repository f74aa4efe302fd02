use std::io::Write;

use flate2::write::GzEncoder;
use flate2::Compression;
use zero::input::read_input;
use zero::kmeans::{
    draw_sample, first_least, first_reaching, keep_lesser, reassign, reseed, totals, Rng,
};
use zero::references::{parse_references, quantize_all};

#[test]
fn numbers_of_a_seed() {
    let mut rng = Rng::new(0);
    assert_eq!(rng.next_u64(), 0xE220_A839_7B1D_CDAF);
    assert_eq!(rng.next_u64(), 0x6E78_9E6A_A1B9_65F4);
    let mut rng = Rng::new(0);
    assert_eq!(rng.below(10), (0xE220_A839_7B1D_CDAFu64 % 10) as usize);
    let mut rng = Rng::new(0);
    assert_eq!(rng.unit(), 0xE220_A839_7B1D_CDAF >> 11);
}

#[test]
fn samples() {
    let s = draw_sample(1000, 50, 42);
    assert_eq!(s.len(), 50);
    let mut rng = Rng::new(42);
    for x in s {
        assert_eq!(x as usize, rng.below(1000));
        assert!(x < 1000);
    }
    assert_eq!(draw_sample(7, 50, 42).len(), 7);
    assert!(draw_sample(0, 50, 42).is_empty());
}

#[test]
fn assignments() {
    let mut a = vec![1, 2, 3, 4];
    assert_eq!(reassign(&mut a, &vec![1, 0, 3, 0]), 2);
    assert_eq!(a, [1, 0, 3, 0]);
    assert_eq!(reassign(&mut a, &vec![1, 0, 3, 0]), 0);
    assert_eq!(first_least(&[5, 3, 4, 3]), 1);
    assert_eq!(first_least(&[2]), 0);
}

#[test]
fn choices() {
    let mut keys = vec![5, 1, 9];
    keep_lesser(&mut keys, &vec![4, 2, 9]);
    assert_eq!(keys, [4, 1, 9]);
    assert_eq!(first_reaching(&[1, 3, 3, 8], 3), 1);
    assert_eq!(first_reaching(&[1, 3, 3, 8], 0), 0);
    assert_eq!(first_reaching(&[1, 3, 3, 8], 9), 3);
    assert_eq!(first_reaching(&[2], 9), 0);
}

#[test]
fn empty_clusters_get_members_of_the_sample() {
    let sample = vec![10, 20, 30, 40, 50];
    let mut rng = Rng::new(0xC0FFEE);
    let got = reseed(&vec![3, 0, 1, 0, 0], &sample, &mut rng);
    let mut same = Rng::new(0xC0FFEE);
    let mut next = || Some(sample[same.below(5)]);
    assert_eq!(got, [None, next(), None, next(), next()]);
    assert_eq!(rng.state, same.state);
}

#[test]
fn sums_of_clusters() {
    let vecs: Vec<i16> = (0..3 * 14).map(|i| i as i16 - 20).collect();
    let t = totals(&vecs, &[0, 2, 2, 1], &[1, 0, 1, 1], 2);
    assert_eq!(t.counts, [1, 3]);
    for d in 0..14 {
        let at = |i: usize| vecs[i * 14 + d] as i64;
        assert_eq!(t.sums[d], at(2));
        assert_eq!(t.sums[14 + d], at(0) + at(2) + at(1));
    }
}

fn texts<'a>(buf: &'a str, tokens: &[(usize, usize)]) -> Vec<&'a str> {
    tokens.iter().map(|&(a, b)| &buf[a..b]).collect()
}

#[test]
fn records_of_references() {
    let numbers = "0.1, -1,2.5e-1 ,3,4,5,6,7,8,9,10,11,\n12,13";
    let buf = format!(
        "[{{\"vector\": [{numbers}], \"label\": \"fraud\"}}, {{\"vector\": [{numbers}, 14], \"label\": \"legit\"}}, {{\"vector\": [1, 2], \"label\": \"fraud\"}}, {{\"label\": \"fraud\"}}]"
    );
    let r = parse_references(buf.as_bytes());
    assert_eq!(r.labels, [1, 0]);
    let expected = ["0.1", "-1", "2.5e-1", "3", "4", "5", "6", "7", "8", "9", "10", "11", "12", "13"];
    assert_eq!(texts(&buf, &r.tokens[..14]), expected);
    assert_eq!(texts(&buf, &r.tokens[14..]), expected);
}

#[test]
fn texts_without_records() {
    for text in ["", "[]", "{", "{}", "]{\"vector\":[0,0,0,0,0,0,0,0,0,0,0,0,0,0]}", "[{]"] {
        let r = parse_references(text.as_bytes());
        assert!(r.labels.is_empty() && r.tokens.is_empty(), "{text}");
    }
}

#[test]
fn an_object_that_does_not_close() {
    let r = parse_references(b"{\"a\": {\"vector\": [1,2,3,4,5,6,7,8,9,10,11,12,13,14], \"fraud\": 0}");
    assert_eq!(r.labels, [1]);
    assert_eq!(r.tokens.len(), 14);
}

#[test]
fn vectors_of_bits() {
    let bits: Vec<u64> = [0.5f64, -1.0, 0.12345].iter().map(|x| x.to_bits()).collect();
    assert_eq!(quantize_all(&bits), [5000, -10000, 1235]);
}

#[test]
fn plain_and_compressed_input() {
    let text = b"[{\"vector\": []}]".to_vec();
    assert_eq!(read_input("refs.json", text.clone()), Some(text.clone()));
    let mut e = GzEncoder::new(Vec::new(), Compression::default());
    e.write_all(&text).unwrap();
    let packed = e.finish().unwrap();
    assert_eq!(read_input("refs.json.gz", packed.clone()), Some(text.clone()));
    assert_eq!(read_input("refs.json", packed.clone()), Some(packed.clone()));
    assert_eq!(read_input(".gz", packed[..packed.len() - 3].to_vec()), None);
    assert_eq!(read_input("x.gz", text.clone()), None);
    assert_eq!(read_input("gz", text.clone()), Some(text));
}
