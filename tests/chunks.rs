use top_few::chunks::{split, Chunk, Chunks};

fn span_lines(data: &[u8], chunk: usize) -> Vec<Vec<Vec<u8>>> {
    let mut spans = Vec::new();
    let mut chunks = Chunks::new(data, chunk);
    while let Some(mut c) = chunks.next() {
        let mut lines = Vec::new();
        while let Some(l) = c.next() {
            lines.push(l);
        }
        spans.push(lines);
    }
    spans
}

fn joined(spans: &[Vec<Vec<u8>>]) -> Vec<u8> {
    let all: Vec<Vec<u8>> = spans.iter().flatten().cloned().collect();
    all.join(&b'\n')
}

#[test]
fn test_split() {
    assert_eq!(vec![0, 3, 6], split(3, 9));
    assert_eq!(vec![0, 3, 6, 9], split(3, 10));
}

#[test]
fn split_of_empty_file_has_one_start() {
    assert_eq!(vec![0], split(5, 0));
    assert_eq!(vec![0], split(1, 1));
    assert_eq!(vec![0, 1], split(1, 2));
}

#[test]
fn empty_file_gives_one_span_without_lines() {
    let spans = span_lines(b"", 4);
    assert_eq!(spans.len(), 1);
    assert!(spans[0].is_empty());
}

#[test]
fn spans_rejoin_to_the_file() {
    let data = b"a\nbb\nccc\n\ndddd\ne\nffffff\ng";
    for chunk in 1..30 {
        let spans = span_lines(data, chunk);
        assert_eq!(joined(&spans), data.to_vec(), "chunk {}", chunk);
    }
}

#[test]
fn trailing_newline_is_the_one_difference() {
    let data = b"x\nyy\nzzz\n";
    for chunk in 1..12 {
        let spans = span_lines(data, chunk);
        assert_eq!(joined(&spans), b"x\nyy\nzzz".to_vec(), "chunk {}", chunk);
    }
}

#[test]
fn every_line_is_read_by_exactly_one_span() {
    let data = b"one\ntwo\nthree\nfour\nfive\nsix\nseven";
    let expected: Vec<Vec<u8>> = data.split(|b| *b == b'\n').map(|l| l.to_vec()).collect();
    for chunk in 1..40 {
        let spans = span_lines(data, chunk);
        let all: Vec<Vec<u8>> = spans.into_iter().flatten().collect();
        assert_eq!(all, expected, "chunk {}", chunk);
    }
}

#[test]
fn long_line_is_delivered_whole_by_one_span() {
    let line = vec![b'q'; 50];
    let spans = span_lines(&line, 1);
    assert_eq!(spans.len(), 50);
    assert_eq!(spans[0], vec![line.clone()]);
    for s in &spans[1..] {
        assert!(s.is_empty());
    }
}

#[test]
fn span_starting_mid_line_skips_to_next_line() {
    let data = b"abc\ndef\n";
    let (mut c, at) = Chunk::new(data, 3, 2);
    assert_eq!(at, 4);
    assert_eq!(c.next(), Some(b"def".to_vec()));
    assert_eq!(c.next(), None);
}

#[test]
fn span_starting_on_line_start_does_not_skip() {
    let data = b"abc\ndef\nghi";
    let (mut c, at) = Chunk::new(data, 2, 4);
    assert_eq!(at, 4);
    assert_eq!(c.next(), Some(b"def".to_vec()));
    assert_eq!(c.next(), None);
}

#[test]
fn span_in_last_line_without_terminator_reads_nothing() {
    let data = b"abcdef";
    let (mut c, at) = Chunk::new(data, 2, 3);
    assert_eq!(at, 6);
    assert_eq!(c.next(), None);
}

#[test]
fn read_spans_gives_every_line_once() {
    let data = b"k1\nk2\n\nk3 long line here\nk4\n";
    for chunk in 1..35 {
        let lines = top_few::chunks::read_spans(data, chunk);
        assert_eq!(
            lines,
            vec![
                b"k1".to_vec(),
                b"k2".to_vec(),
                b"".to_vec(),
                b"k3 long line here".to_vec(),
                b"k4".to_vec()
            ],
            "chunk {}",
            chunk
        );
    }
}
