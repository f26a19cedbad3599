//! Whole runs: splitting, aggregating, merging partitions, ordering.

use mean_by_key::error::Error;
use mean_by_key::pipeline::{aggregate, run, split_lines};
use mean_by_key::table::Table;
use mean_by_key::SCALE;

fn means_of(t: &Table) -> Vec<(Vec<u8>, f64)> {
    t.entries()
        .iter()
        .map(|(k, a)| (k.clone(), a.sum() as f64 / (a.count() as f64 * SCALE as f64)))
        .collect()
}

#[test]
fn end_to_end_ordering() {
    let t = run(b"b;1.0\na;3.0\na;5.0\nc;0.0").unwrap();
    let out = means_of(&t);
    assert_eq!(out.len(), 3);
    assert_eq!(out[0], (b"a".to_vec(), 4.0));
    assert_eq!(out[1], (b"b".to_vec(), 1.0));
    assert_eq!(out[2], (b"c".to_vec(), 0.0));
}

#[test]
fn partition_merge_equivalence() {
    let lines: Vec<&[u8]> = vec![
        b"b;1.0", b"a;3.0", b"a;5.0", b"c;0.0", b"b;2.5", b"d;-1.5", b"a;-2.0", b"c;7.25",
    ];
    let text = lines.join(&b'\n');
    let whole = run(&text).unwrap();
    let expected = means_of(&whole);

    let owned: Vec<Vec<u8>> = lines.iter().map(|l| l.to_vec()).collect();
    // every cut count from one chunk up to one line per chunk
    for chunks in 1..=owned.len() {
        let size = owned.len().div_ceil(chunks);
        let mut merged = Table::new();
        for chunk in owned.chunks(size) {
            let part = aggregate(chunk).unwrap();
            merged.merge_from(part).unwrap();
        }
        assert_eq!(means_of(&merged), expected);
    }
}

#[test]
fn merge_order_does_not_matter() {
    let t1 = aggregate(&[b"a;1.0".to_vec(), b"b;2.0".to_vec()]).unwrap();
    let t2 = aggregate(&[b"b;4.0".to_vec(), b"c;8.0".to_vec()]).unwrap();
    let t3 = aggregate(&[b"a;3.0".to_vec()]).unwrap();

    let mut left = Table::new();
    left.merge_from(t1).unwrap();
    left.merge_from(t2).unwrap();
    left.merge_from(t3).unwrap();

    let t1 = aggregate(&[b"a;1.0".to_vec(), b"b;2.0".to_vec()]).unwrap();
    let t2 = aggregate(&[b"b;4.0".to_vec(), b"c;8.0".to_vec()]).unwrap();
    let t3 = aggregate(&[b"a;3.0".to_vec()]).unwrap();

    let mut right = Table::new();
    right.merge_from(t3).unwrap();
    right.merge_from(t2).unwrap();
    right.merge_from(t1).unwrap();

    assert_eq!(means_of(&left), means_of(&right));
}

#[test]
fn fatal_error_cases() {
    // a line without a separator aborts the run with its index
    assert!(matches!(run(b"a;1.0\nonlykey\nb;2.0"), Err(Error::BadLine(1))));
    // a line whose value field is no number aborts the run with its index
    assert!(matches!(run(b"key;notanumber"), Err(Error::BadNumber(0))));
    // nothing of a failed run is presented: the result is the error alone
    assert!(run(b"b;1.0\na;;3.0").is_err());
}

#[test]
fn empty_lines_are_skipped() {
    let t = run(b"a;1.0\n\nb;2.0\n\n\n").unwrap();
    let out = means_of(&t);
    assert_eq!(out.len(), 2);
    assert_eq!(out[0], (b"a".to_vec(), 1.0));
    assert_eq!(out[1], (b"b".to_vec(), 2.0));
}

#[test]
fn line_terminators() {
    // carriage-return line endings and a closing newline are accepted
    let t = run(b"a;1.0\r\nb;2.0\r\n").unwrap();
    let out = means_of(&t);
    assert_eq!(out.len(), 2);
    assert_eq!(out[0], (b"a".to_vec(), 1.0));
    assert_eq!(out[1], (b"b".to_vec(), 2.0));

    let lines = split_lines(b"x\ny\nz");
    assert_eq!(lines, vec![b"x".to_vec(), b"y".to_vec(), b"z".to_vec()]);
    let lines = split_lines(b"");
    assert_eq!(lines.len(), 0);
    let lines = split_lines(b"\n");
    assert_eq!(lines, vec![b"".to_vec()]);
}

#[test]
fn empty_input_gives_empty_result() {
    let t = run(b"").unwrap();
    assert_eq!(t.entries().len(), 0);
}

#[test]
fn single_key_many_values() {
    let t = run(b"k;1.5\nk;2.5\nk;-1.0\nk;0.5").unwrap();
    let out = means_of(&t);
    assert_eq!(out, vec![(b"k".to_vec(), 0.875)]);
}

#[test]
fn keys_sorted_bytewise() {
    // byte-wise ascending order: shorter prefix first, then by byte value
    let t = run(b"ab;1.0\na;2.0\nB;3.0\nb;4.0\naa;5.0").unwrap();
    let keys: Vec<Vec<u8>> = t.entries().iter().map(|(k, _)| k.clone()).collect();
    assert_eq!(
        keys,
        vec![b"B".to_vec(), b"a".to_vec(), b"aa".to_vec(), b"ab".to_vec(), b"b".to_vec()]
    );
}
