use pydeduplines::added::{added_lines, AddedFilter};
use pydeduplines::bucket::{bucket_of, partition_lines};
use pydeduplines::lines::next_line;
use pydeduplines::run::{poll_decision, Config, DedupError, Ledger, PollAction};
use pydeduplines::unique::{append_segment, unique_lines, UniqueLines};

fn lines(data: &[u8]) -> Vec<Vec<u8>> {
    let mut out = Vec::new();
    for l in data.split(|b| *b == b'\n') {
        out.push(l.to_vec());
    }
    if data.is_empty() || data.ends_with(b"\n") {
        out.pop();
    }
    out
}

#[test]
fn next_line_finds_delimiter_and_end() {
    assert_eq!(next_line(b"ab\ncd", 0), (2, 3));
    assert_eq!(next_line(b"ab\ncd", 3), (5, 5));
    assert_eq!(next_line(b"\n\n", 1), (1, 2));
}

#[test]
fn bucket_is_byte_sum_modulo_parts() {
    assert_eq!(bucket_of(b"ab", 7), 195 % 7);
    assert_eq!(bucket_of(b"", 5), 0);
    assert_eq!(bucket_of(b"\x00\xff", 4), 3);
    assert_eq!(bucket_of(b"apple", 1), 0);
    let long = vec![255u8; 10_000];
    assert_eq!(bucket_of(&long, 1000), (255 * 10_000) % 1000);
}

#[test]
fn bucket_ignores_byte_order() {
    assert_eq!(bucket_of(b"abc", 11), bucket_of(b"cba", 11));
}

#[test]
fn partition_keeps_order_and_adds_delimiter() {
    let parts = partition_lines(b"a\nb\na", 2);
    assert_eq!(parts.len(), 2);
    assert_eq!(parts[0], b"b\n".to_vec());
    assert_eq!(parts[1], b"a\na\n".to_vec());
}

#[test]
fn partition_of_empty_input_is_empty() {
    let parts = partition_lines(b"", 3);
    assert_eq!(parts, vec![Vec::<u8>::new(), Vec::new(), Vec::new()]);
}

#[test]
fn same_line_same_bucket_across_files() {
    let first = b"apple\nbanana\ncherry\n";
    let second = b"banana\ndate\napple\nfig\n";
    let n = 6;
    let p1 = partition_lines(first, n);
    let p2 = partition_lines(second, n);
    for line in [b"apple".as_slice(), b"banana".as_slice()] {
        let k = bucket_of(line, n);
        for j in 0..n {
            let in1 = lines(&p1[j]).contains(&line.to_vec());
            let in2 = lines(&p2[j]).contains(&line.to_vec());
            assert_eq!(in1, j == k);
            assert_eq!(in2, j == k);
        }
    }
}

#[test]
fn added_example() {
    let a = b"apple\nbanana\ncherry\n";
    let b = b"banana\ndate\napple\nfig\n";
    assert_eq!(added_lines(a, b), b"date\nfig\n".to_vec());
}

#[test]
fn added_keeps_repetitions_and_order() {
    let a = b"x\n";
    let b = b"z\nx\ny\nz\ny\nz";
    assert_eq!(added_lines(a, b), b"z\ny\nz\ny\nz\n".to_vec());
}

#[test]
fn added_with_empty_inputs() {
    assert_eq!(added_lines(b"", b""), Vec::<u8>::new());
    assert_eq!(added_lines(b"a\n", b""), Vec::<u8>::new());
    assert_eq!(added_lines(b"", b"a\nb"), b"a\nb\n".to_vec());
}

#[test]
fn added_empty_line_counts_as_a_line() {
    assert_eq!(added_lines(b"a\n", b"a\n\nb\n"), b"\nb\n".to_vec());
    assert_eq!(added_lines(b"\n", b"a\n\nb\n"), b"a\nb\n".to_vec());
}

#[test]
fn added_is_binary_safe() {
    let a = b"a\x00b\n\xff\xfe\n";
    let b = b"a\x00c\n\xff\xfe\na\x00b\n\x00\n";
    assert_eq!(added_lines(a, b), b"a\x00c\n\x00\n".to_vec());
}

#[test]
fn added_last_line_without_delimiter_matches() {
    assert_eq!(added_lines(b"a\nb", b"b\nc\n"), b"c\n".to_vec());
}

#[test]
fn added_filter_by_chunks_equals_whole() {
    let a = b"apple\nbanana\ncherry\n";
    let filter = AddedFilter::new(a);
    let mut out = Vec::new();
    filter.filter_chunk(b"banana\ndate\n", &mut out);
    filter.filter_chunk(b"apple\nfig\n", &mut out);
    assert_eq!(out, b"date\nfig\n".to_vec());
}

#[test]
fn added_by_buckets_covers_whole_result() {
    let a = b"apple\nbanana\ncherry\n";
    let b = b"banana\ndate\napple\nfig\ndate\n";
    let n = 4;
    let pa = partition_lines(a, n);
    let pb = partition_lines(b, n);
    let mut got = Vec::new();
    for k in 0..n {
        for l in lines(&added_lines(&pa[k], &pb[k])) {
            assert!(!lines(a).contains(&l));
            got.push(l);
        }
    }
    got.sort();
    let mut want = lines(b"date\nfig\ndate\n");
    want.sort();
    assert_eq!(got, want);
}

#[test]
fn single_bucket_matches_whole_file() {
    let a = b"apple\nbanana\ncherry\n";
    let b = b"banana\ndate\napple\nfig";
    let pa = partition_lines(a, 1);
    let pb = partition_lines(b, 1);
    assert_eq!(added_lines(&pa[0], &pb[0]), added_lines(a, b));
    assert_eq!(unique_lines(&pb[0]), unique_lines(b));
}

#[test]
fn unique_example() {
    let mut buf = Vec::new();
    append_segment(&mut buf, b"apple\nbanana\ncherry\n");
    append_segment(&mut buf, b"banana\ndate\napple\nfig\n");
    let out = unique_lines(&buf);
    assert_eq!(out, b"apple\nbanana\ncherry\ndate\nfig\n".to_vec());
    assert_eq!(lines(&out).len(), 5);
}

#[test]
fn unique_across_buckets_has_each_line_once() {
    let files: [&[u8]; 3] = [b"a\nb\nc\na\n", b"c\nd\n", b"e\nb\nd"];
    let n = 3;
    let parts: Vec<Vec<Vec<u8>>> = files.iter().map(|f| partition_lines(f, n)).collect();
    let mut got = Vec::new();
    for k in 0..n {
        let mut buf = Vec::new();
        for p in parts.iter() {
            append_segment(&mut buf, &p[k]);
        }
        got.extend(lines(&unique_lines(&buf)));
    }
    got.sort();
    let want: Vec<Vec<u8>> = ["a", "b", "c", "d", "e"].iter().map(|s| s.as_bytes().to_vec()).collect();
    assert_eq!(got, want);
}

#[test]
fn unique_of_empty_is_empty() {
    assert_eq!(unique_lines(b""), Vec::<u8>::new());
    let mut buf = Vec::new();
    append_segment(&mut buf, b"");
    append_segment(&mut buf, b"");
    assert!(buf.is_empty());
}

#[test]
fn unique_is_binary_safe() {
    let out = unique_lines(b"\x00\n\x00\x00\n\x00\n\xff\n");
    assert_eq!(out, b"\x00\n\x00\x00\n\xff\n".to_vec());
}

#[test]
fn append_segment_closes_open_line() {
    let mut buf = b"a".to_vec();
    append_segment(&mut buf, b"b\n");
    assert_eq!(buf, b"a\nb\n".to_vec());
    append_segment(&mut buf, b"c");
    assert_eq!(buf, b"a\nb\nc".to_vec());
}

#[test]
fn unique_batches_respect_limit() {
    let data = b"aa\nbb\naa\ncc\ndd\nbb\nee\n";
    let mut walk = UniqueLines::new(data);
    let mut written = Vec::new();
    let mut batches = 0;
    while !walk.is_done() {
        let mut out = Vec::new();
        walk.next_batch(&mut out, 4);
        assert!(walk.is_done() || out.len() >= 4);
        written.extend_from_slice(&out);
        batches += 1;
    }
    assert_eq!(written, b"aa\nbb\ncc\ndd\nee\n".to_vec());
    assert!(batches >= 3);
    assert_eq!(written, unique_lines(data));
}

#[test]
fn config_rejects_zero_and_overflow() {
    assert_eq!(Config::new(0, 4).err(), Some(DedupError::ZeroSplits));
    assert_eq!(Config::new(2, 0).err(), Some(DedupError::ZeroThreads));
    assert_eq!(Config::new(usize::MAX, 2).err(), Some(DedupError::TooManyParts));
    let c = Config::new(3, 4).ok().unwrap();
    assert_eq!(c.num_parts(), 12);
    assert_eq!(c.number_of_splits(), 3);
    assert_eq!(c.number_of_threads(), 4);
    assert_eq!(Config::new(1, 1).ok().unwrap().num_parts(), 1);
}

#[test]
fn ledger_reports_first_failure() {
    let mut ledger = Ledger::new();
    ledger.record(Ok(()));
    ledger.record(Err(DedupError::Io("first".to_string())));
    ledger.record(Err(DedupError::Io("second".to_string())));
    assert_eq!(ledger.settle(false), Err(DedupError::Io("first".to_string())));
}

#[test]
fn ledger_success_when_all_succeed() {
    let mut ledger = Ledger::new();
    ledger.record(Ok(()));
    ledger.record(Ok(()));
    assert_eq!(ledger.settle(false), Ok(()));
    assert_eq!(Ledger::new().settle(false), Ok(()));
}

#[test]
fn ledger_interrupt_comes_first() {
    let mut ledger = Ledger::new();
    ledger.record(Err(DedupError::Io("broken".to_string())));
    assert_eq!(ledger.settle(true), Err(DedupError::Interrupted));
}

#[test]
fn poll_decisions() {
    assert_eq!(poll_decision(0, true), PollAction::Finished);
    assert_eq!(poll_decision(0, false), PollAction::Finished);
    assert_eq!(poll_decision(3, true), PollAction::Cancel);
    assert_eq!(poll_decision(3, false), PollAction::Wait);
}
