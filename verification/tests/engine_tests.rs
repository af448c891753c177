use one_billion_crabs::aggregate::Aggregate;
use one_billion_crabs::chunk::chunk_step;
use one_billion_crabs::engine::{aggregate_chunk, summarize, EngineError};
use one_billion_crabs::parse::{parse_line, parse_value};
use one_billion_crabs::render::render_report;

fn run(input: &str, chunk_size: usize) -> Result<String, Vec<u8>> {
    let bytes: Vec<u8> = input.as_bytes().to_vec();
    match summarize(&bytes, chunk_size) {
        Ok(out) => Ok(String::from_utf8(out).unwrap()),
        Err(EngineError::Parse(line)) => Err(line),
    }
}

#[test]
fn end_to_end_example() {
    let input = "Tokyo;25.0\nParis;10.0\nTokyo;27.0\nParis;5.0\n";
    let expected = "Paris;5.0;7.5;10.0\nTokyo;25.0;26.0;27.0\n";
    assert_eq!(run(input, 1 << 20).unwrap(), expected);
}

#[test]
fn chunk_size_never_matters() {
    let input = "Tokyo;25.0\nParis;10.0\nTokyo;27.0\nParis;5.0\n";
    let expected = "Paris;5.0;7.5;10.0\nTokyo;25.0;26.0;27.0\n";
    for cs in [1usize, 2, 8, 64, 3, 7, 11, 1024] {
        assert_eq!(run(input, cs).unwrap(), expected, "chunk size {}", cs);
    }
}

#[test]
fn boundary_straddles_a_line() {
    // chunk size 7 lands inside "alpha;1.5": the chunker must carry the
    // partial line over, never split or drop it
    let input = "alpha;1.5\nbeta;2.5\nalpha;2.5\n";
    let expected = "alpha;1.5;2.0;2.5\nbeta;2.5;2.5;2.5\n";
    assert_eq!(run(input, 7).unwrap(), expected);
    assert_eq!(run(input, 9).unwrap(), expected);
    assert_eq!(run(input, 10).unwrap(), expected);
    assert_eq!(run(input, 1000).unwrap(), expected);
}

#[test]
fn no_trailing_newline_same_result() {
    let with_nl = "Tokyo;25.0\nParis;10.0\nTokyo;27.0\nParis;5.0\n";
    let without_nl = "Tokyo;25.0\nParis;10.0\nTokyo;27.0\nParis;5.0";
    for cs in [1usize, 5, 64] {
        assert_eq!(run(with_nl, cs).unwrap(), run(without_nl, cs).unwrap());
    }
}

#[test]
fn blank_lines_are_ignored() {
    let with_blanks = "\nTokyo;25.0\n\n\nParis;10.0\nTokyo;27.0\n\nParis;5.0\n\n";
    let stripped = "Tokyo;25.0\nParis;10.0\nTokyo;27.0\nParis;5.0\n";
    for cs in [1usize, 4, 64] {
        assert_eq!(run(with_blanks, cs).unwrap(), run(stripped, cs).unwrap());
    }
}

#[test]
fn rerun_is_idempotent() {
    let input = "a;1.0\nb;-2.75\na;3.25\nc;0.0\n";
    let first = run(input, 8).unwrap();
    let second = run(input, 8).unwrap();
    assert_eq!(first, second);
}

#[test]
fn merge_any_partition_gives_one_pass_result() {
    let all = "a;1.0\nb;2.0\na;3.0\nc;4.0\nb;5.0\na;6.0\n";
    let parts = ["a;1.0\nb;2.0\n", "a;3.0\nc;4.0\n", "b;5.0\na;6.0\n"];
    let one_pass = aggregate_chunk(&all.as_bytes().to_vec()).ok().unwrap();
    let expected = String::from_utf8(render_report(&one_pass)).unwrap();

    // left-to-right fold
    let mut left = Aggregate::new();
    for p in parts.iter() {
        let a = aggregate_chunk(&p.as_bytes().to_vec()).ok().unwrap();
        left.merge(&a);
    }
    assert_eq!(String::from_utf8(render_report(&left)).unwrap(), expected);

    // reversed arrival order
    let mut rev = Aggregate::new();
    for p in parts.iter().rev() {
        let a = aggregate_chunk(&p.as_bytes().to_vec()).ok().unwrap();
        rev.merge(&a);
    }
    assert_eq!(String::from_utf8(render_report(&rev)).unwrap(), expected);

    // tree-shaped grouping: (p0 + p1) + p2 versus p0 + (p1 + p2)
    let mut right = aggregate_chunk(&parts[1].as_bytes().to_vec()).ok().unwrap();
    let tail = aggregate_chunk(&parts[2].as_bytes().to_vec()).ok().unwrap();
    right.merge(&tail);
    let mut head = aggregate_chunk(&parts[0].as_bytes().to_vec()).ok().unwrap();
    head.merge(&right);
    assert_eq!(String::from_utf8(render_report(&head)).unwrap(), expected);

    // key-sharded partition: lines routed by key, not by position
    let shard_a = "a;1.0
a;3.0
a;6.0
";
    let shard_bc = "b;2.0
c;4.0
b;5.0
";
    let mut sharded = aggregate_chunk(&shard_a.as_bytes().to_vec()).ok().unwrap();
    let other = aggregate_chunk(&shard_bc.as_bytes().to_vec()).ok().unwrap();
    sharded.merge(&other);
    assert_eq!(String::from_utf8(render_report(&sharded)).unwrap(), expected);
}

#[test]
fn fixed_point_sum_is_exact() {
    // 10,000 values of 1.1: the scaled sum is exactly 1_100_000 and the
    // mean is exactly 1.1 — no floating drift
    let mut input = String::new();
    for _ in 0..10_000 {
        input.push_str("x;1.1\n");
    }
    let agg = aggregate_chunk(&input.as_bytes().to_vec()).ok().unwrap();
    let st = agg.get(&b"x".to_vec()).unwrap();
    assert_eq!(st.count, 10_000);
    assert_eq!(st.sum, 1_100_000);
    assert_eq!(st.min, 110);
    assert_eq!(st.max, 110);
    assert_eq!(run(&input, 4096).unwrap(), "x;1.1;1.1;1.1\n");
}

#[test]
fn negative_values() {
    let input = "k;-3.5\nk;2.5\n";
    assert_eq!(run(input, 64).unwrap(), "k;-3.5;-0.5;2.5\n");
}

#[test]
fn mean_rounds_half_away_from_zero() {
    // mean of 0.1 and 0.2 is 0.15 -> 0.2; of -0.1 and -0.2 is -0.15 -> -0.2
    assert_eq!(run("k;0.1\nk;0.2\n", 64).unwrap(), "k;0.1;0.2;0.2\n");
    assert_eq!(run("k;-0.1\nk;-0.2\n", 64).unwrap(), "k;-0.2;-0.2;-0.1\n");
}

#[test]
fn extrema_round_to_one_decimal() {
    // two-decimal inputs are kept exactly and rounded only for display
    assert_eq!(run("k;1.25\n", 64).unwrap(), "k;1.3;1.3;1.3\n");
    assert_eq!(run("k;1.24\n", 64).unwrap(), "k;1.2;1.2;1.2\n");
    assert_eq!(run("k;-1.25\n", 64).unwrap(), "k;-1.3;-1.3;-1.3\n");
}

#[test]
fn empty_and_blank_inputs() {
    assert_eq!(run("", 64).unwrap(), "");
    assert_eq!(run("\n\n\n", 64).unwrap(), "");
}

#[test]
fn malformed_number_fails_with_the_line() {
    let err = run("a;1.0\nb;oops\nc;2.0\n", 64).unwrap_err();
    assert_eq!(err, b"b;oops".to_vec());
}

#[test]
fn missing_delimiter_fails_with_the_line() {
    let err = run("a;1.0\nnodelimiter\n", 4).unwrap_err();
    assert_eq!(err, b"nodelimiter".to_vec());
}

#[test]
fn out_of_range_value_fails() {
    let err = run("a;99999999999999999999999\n", 64).unwrap_err();
    assert_eq!(err, b"a;99999999999999999999999".to_vec());
}

#[test]
fn empty_value_field_fails() {
    let err = run("a;\n", 64).unwrap_err();
    assert_eq!(err, b"a;".to_vec());
}

#[test]
fn bare_sign_fails() {
    let err = run("a;-\n", 64).unwrap_err();
    assert_eq!(err, b"a;-".to_vec());
}

#[test]
fn too_many_fraction_digits_fail() {
    let err = run("a;1.234\n", 64).unwrap_err();
    assert_eq!(err, b"a;1.234".to_vec());
}

#[test]
fn parse_line_splits_at_first_delimiter() {
    let r = parse_line(&b"a;b;12.5".to_vec());
    // the key is everything before the first `;`; "b;12.5" is no number
    assert!(r.is_none());
    let r = parse_line(&b"city name;12.5".to_vec());
    let (key, v) = r.unwrap();
    assert_eq!(key, b"city name".to_vec());
    assert_eq!(v, 1250);
}

#[test]
fn parse_value_scales_to_hundredths() {
    assert_eq!(parse_value(&b"0".to_vec()), Some(0));
    assert_eq!(parse_value(&b"7".to_vec()), Some(700));
    assert_eq!(parse_value(&b"7.5".to_vec()), Some(750));
    assert_eq!(parse_value(&b"7.25".to_vec()), Some(725));
    assert_eq!(parse_value(&b"-7.25".to_vec()), Some(-725));
    assert_eq!(parse_value(&b"".to_vec()), None);
    assert_eq!(parse_value(&b"1.".to_vec()), None);
    assert_eq!(parse_value(&b"1e5".to_vec()), None);
    assert_eq!(parse_value(&b" 1".to_vec()), None);
}

#[test]
fn chunker_splits_on_line_boundary() {
    let leftover = b"Tok".to_vec();
    let data = b"yo;25.0\nPar".to_vec();
    let (chunk, rest) = chunk_step(leftover, &data, false);
    assert_eq!(chunk, b"Tokyo;25.0\n".to_vec());
    assert_eq!(rest, b"Par".to_vec());

    // no newline at all: everything stays leftover
    let (chunk, rest) = chunk_step(b"Par".to_vec(), &b"is;1".to_vec(), false);
    assert_eq!(chunk, b"".to_vec());
    assert_eq!(rest, b"Paris;1".to_vec());

    // at end of input the chunk takes everything, newline or not
    let (chunk, rest) = chunk_step(b"Paris;1".to_vec(), &b".5".to_vec(), true);
    assert_eq!(chunk, b"Paris;1.5".to_vec());
    assert_eq!(rest, b"".to_vec());
}

#[test]
fn aggregate_counts_and_lookup() {
    let agg = aggregate_chunk(&b"a;1.0\nb;2.0\na;3.0\n".to_vec()).ok().unwrap();
    assert_eq!(agg.total_count(), 3);
    assert_eq!(agg.len(), 2);
    let a = agg.get(&b"a".to_vec()).unwrap();
    assert_eq!(a.count, 2);
    assert_eq!(a.sum, 400);
    assert_eq!(a.min, 100);
    assert_eq!(a.max, 300);
    assert!(agg.get(&b"zzz".to_vec()).is_none());
}

#[test]
fn keys_sort_in_byte_order() {
    let input = "b;1.0\nA;1.0\na;1.0\nB;1.0\n";
    // byte-lexicographic: uppercase before lowercase
    assert_eq!(
        run(input, 64).unwrap(),
        "A;1.0;1.0;1.0\nB;1.0;1.0;1.0\na;1.0;1.0;1.0\nb;1.0;1.0;1.0\n"
    );
}

#[test]
fn empty_key_is_a_key() {
    assert_eq!(run(";4.5\n;5.5\n", 64).unwrap(), ";4.5;5.0;5.5\n");
}

#[test]
fn single_line_longer_than_chunk() {
    // one logical line far larger than the chunk size still comes through whole
    let mut key = String::new();
    for _ in 0..100 {
        key.push('k');
    }
    let input = format!("{};1.0\n", key);
    let expected = format!("{};1.0;1.0;1.0\n", key);
    assert_eq!(run(&input, 3).unwrap(), expected);
}
