use vstd::prelude::*;

verus! {

/// The tentative start offsets of the spans of a `size`-byte file cut every
/// `chunk` bytes: `0, chunk, 2 * chunk, ...` below `size`, and at least `0`.
pub open spec fn plan(chunk: nat, size: nat) -> Seq<u64>
    recommends
        chunk >= 1,
{
    Seq::new(span_count(chunk, size), |i: int| (i * chunk) as u64)
}

/// The number of spans: `ceil(size / chunk)`, and one for an empty file.
pub open spec fn span_count(chunk: nat, size: nat) -> nat
    recommends
        chunk >= 1,
{
    if size == 0 {
        1
    } else {
        ((size + chunk - 1) / chunk as int) as nat
    }
}

pub fn split(chunk: u64, size: u64) -> (r: Vec<u64>)
    requires
        chunk >= 1,
    ensures
        r@ == plan(chunk as nat, size as nat),
{
    let mut r: Vec<u64> = Vec::new();
    let mut next: u64 = 0;
    r.push(0);
    while size - next > chunk
        invariant
            chunk >= 1,
            next < size || next == 0,
            r@.len() >= 1,
            next as int == (r@.len() - 1) * chunk,
            forall|i: int| 0 <= i < r@.len() ==> r@[i] as int == i * chunk,
        decreases size - next,
    {
        let ghost m = r@.len() - 1;
        next = next + chunk;
        r.push(next);
        assert((m + 1) * chunk == m * chunk + chunk) by (nonlinear_arith);
    }
    proof {
        let m = r@.len() - 1;
        if size == 0 {
            assert(m == 0) by (nonlinear_arith)
                requires
                    m * chunk == 0,
                    chunk >= 1,
                    m >= 0,
            ;
        } else {
            assert(m * chunk < size <= m * chunk + chunk);
            assert((size + chunk - 1) / chunk as int == m + 1) by (nonlinear_arith)
                requires
                    m * chunk < size <= m * chunk + chunk,
                    chunk >= 1,
                    m >= 0,
            {
                let q = (size + chunk - 1) / chunk as int;
                let rr = (size + chunk - 1) % chunk as int;
                assert(size + chunk - 1 == q * chunk + rr);
            }
        }
        assert forall|i: int| 0 <= i < r@.len() implies r@[i] == (i * chunk) as u64 by {
            assert(i * chunk <= m * chunk) by (nonlinear_arith)
                requires
                    0 <= i <= m,
                    chunk >= 1,
            ;
        }
        assert(r@ =~= plan(chunk as nat, size as nat));
    }
    r
}

/// The byte that ends a line.
pub const NEWLINE: u8 = 10;

/// The offset of the terminator of the line that holds offset `p`, or the
/// file's length where no terminator follows.
pub open spec fn line_end(d: Seq<u8>, p: int) -> int
    decreases d.len() - p,
{
    if 0 <= p < d.len() {
        if d[p] == NEWLINE {
            p
        } else {
            line_end(d, p + 1)
        }
    } else {
        d.len() as int
    }
}

/// Offset `q` is where a line begins, or the end of the file.
pub open spec fn is_boundary(d: Seq<u8>, q: int) -> bool {
    q == 0 || q == d.len() || (0 < q < d.len() && d[q - 1] == NEWLINE)
}

/// Where a span with tentative start `s` begins to read: `s` itself when it
/// opens a line, else just past the line that `s` falls in.
pub open spec fn resolved_start(d: Seq<u8>, s: int) -> int {
    if is_boundary(d, s) {
        s
    } else if line_end(d, s) < d.len() {
        line_end(d, s) + 1
    } else {
        d.len() as int
    }
}

/// The lines that a reader at offset `p` yields before its counter reaches `e`.
pub open spec fn span_lines_from(d: Seq<u8>, p: int, e: int) -> Seq<Seq<u8>>
    decreases d.len() + 1 - p,
    via span_lines_from_decreases
{
    if 0 <= p < e && p < d.len() {
        seq![d.subrange(p, line_end(d, p))] + span_lines_from(d, line_end(d, p) + 1, e)
    } else {
        Seq::empty()
    }
}

#[via_fn]
proof fn span_lines_from_decreases(d: Seq<u8>, p: int, e: int) {
    if 0 <= p < e && p < d.len() {
        lemma_line_end(d, p);
    }
}

/// The lines of the span whose tentative start is `s`: read from its resolved
/// start while the counter is below `min(len, s + chunk)`.
pub open spec fn span_lines(d: Seq<u8>, chunk: nat, s: int) -> Seq<Seq<u8>> {
    span_lines_from(d, resolved_start(d, s), span_end(d, chunk, s))
}

pub open spec fn span_end(d: Seq<u8>, chunk: nat, s: int) -> int {
    if s + chunk < d.len() {
        s + chunk
    } else {
        d.len() as int
    }
}

/// Every line of the file, in order.
pub open spec fn file_lines(d: Seq<u8>) -> Seq<Seq<u8>> {
    span_lines_from(d, 0, d.len() as int)
}

/// The lines of the spans that start at `starts[i..]`, span after span.
pub open spec fn spans_lines_from(d: Seq<u8>, chunk: nat, starts: Seq<u64>, i: int) -> Seq<
    Seq<u8>,
>
    decreases starts.len() - i,
{
    if 0 <= i < starts.len() {
        span_lines(d, chunk, starts[i] as int) + spans_lines_from(d, chunk, starts, i + 1)
    } else {
        Seq::empty()
    }
}

/// The lines of all spans of the file cut every `chunk` bytes, span after span.
pub open spec fn all_span_lines(d: Seq<u8>, chunk: nat) -> Seq<Seq<u8>> {
    spans_lines_from(d, chunk, plan(chunk, d.len()), 0)
}

/// Lines joined with the terminator between each two.
pub open spec fn join_lines(ls: Seq<Seq<u8>>) -> Seq<u8>
    decreases ls.len(),
{
    if ls.len() == 0 {
        Seq::empty()
    } else if ls.len() == 1 {
        ls[0]
    } else {
        ls[0] + seq![NEWLINE] + join_lines(ls.drop_first())
    }
}

/// The file without its final terminator, if it ends with one.
pub open spec fn trim_last_newline(d: Seq<u8>) -> Seq<u8> {
    if d.len() > 0 && d.last() == NEWLINE {
        d.drop_last()
    } else {
        d
    }
}

pub proof fn lemma_line_end(d: Seq<u8>, p: int)
    requires
        0 <= p <= d.len(),
    ensures
        p <= line_end(d, p) <= d.len(),
        line_end(d, p) < d.len() ==> d[line_end(d, p)] == NEWLINE,
        forall|i: int| p <= i < line_end(d, p) ==> d[i] != NEWLINE,
    decreases d.len() - p,
{
    if p < d.len() && d[p] != NEWLINE {
        lemma_line_end(d, p + 1);
    }
}

proof fn lemma_resolved_start(d: Seq<u8>, s: int)
    requires
        0 <= s <= d.len(),
    ensures
        s <= resolved_start(d, s) <= d.len(),
        is_boundary(d, resolved_start(d, s)),
        forall|q: int| s <= q <= d.len() && is_boundary(d, q) ==> resolved_start(d, s) <= q,
{
    lemma_line_end(d, s);
    let r = resolved_start(d, s);
    if !is_boundary(d, s) {
        assert forall|q: int| s <= q <= d.len() && is_boundary(d, q) implies r <= q by {
            if q < r {
                assert(d[q - 1] != NEWLINE);
            }
        }
    }
}

/// Reading from a line start `p` up to `e`, then from the first line start at
/// or after `e` to the end, reads the same lines as reading from `p` to the end.
proof fn lemma_span_split(d: Seq<u8>, p: int, e: int)
    requires
        0 <= p <= d.len(),
        0 <= e <= d.len(),
        is_boundary(d, p),
        p <= resolved_start(d, e),
    ensures
        span_lines_from(d, p, e) + span_lines_from(d, resolved_start(d, e), d.len() as int)
            == span_lines_from(d, p, d.len() as int),
    decreases d.len() - p,
{
    lemma_resolved_start(d, e);
    let q = resolved_start(d, e);
    if p >= e {
        assert(p == q);
        assert(span_lines_from(d, p, e) == Seq::<Seq<u8>>::empty());
        assert(span_lines_from(d, p, e) + span_lines_from(d, q, d.len() as int) =~= span_lines_from(
            d,
            p,
            d.len() as int,
        ));
    } else {
        lemma_line_end(d, p);
        let n = line_end(d, p);
        let line = d.subrange(p, n);
        if n < d.len() {
            assert(is_boundary(d, n + 1));
            assert(n + 1 <= q) by {
                if q < n + 1 {
                    assert(q > p);
                    if q < d.len() {
                        assert(d[q - 1] != NEWLINE);
                    }
                }
            }
            lemma_span_split(d, n + 1, e);
            assert(seq![line] + span_lines_from(d, n + 1, e) + span_lines_from(
                d,
                q,
                d.len() as int,
            ) =~= seq![line] + (span_lines_from(d, n + 1, e) + span_lines_from(
                d,
                q,
                d.len() as int,
            )));
        } else {
            assert(q == d.len()) by {
                if q < d.len() {
                    assert(d[q - 1] != NEWLINE);
                }
            }
            assert(span_lines_from(d, n + 1, e) == Seq::<Seq<u8>>::empty());
            assert(span_lines_from(d, n + 1, d.len() as int) == Seq::<Seq<u8>>::empty());
            assert(span_lines_from(d, q, d.len() as int) == Seq::<Seq<u8>>::empty());
            assert(span_lines_from(d, p, e) + span_lines_from(d, q, d.len() as int)
                =~= span_lines_from(d, p, d.len() as int));
        }
    }
}

proof fn lemma_plan(chunk: nat, size: nat)
    requires
        chunk >= 1,
    ensures
        forall|i: int|
            0 <= i < span_count(chunk, size) ==> #[trigger] (i * chunk) < size || i == 0,
        (span_count(chunk, size) - 1) * chunk + chunk >= size,
        span_count(chunk, size) >= 1,
{
    let k = span_count(chunk, size) as int;
    if size > 0 {
        let q = (size + chunk - 1) / chunk as int;
        let r = (size + chunk - 1) % chunk as int;
        assert(size + chunk - 1 == q * chunk + r && 0 <= r < chunk) by (nonlinear_arith)
            requires
                chunk >= 1,
                q == (size + chunk - 1) / chunk as int,
                r == (size + chunk - 1) % chunk as int,
        ;
        assert(q >= 1) by (nonlinear_arith)
            requires
                size + chunk - 1 == q * chunk + r,
                0 <= r < chunk,
                size >= 1,
        ;
        assert forall|i: int| 0 <= i < k implies #[trigger] (i * chunk) < size || i == 0 by {
            assert(i * chunk <= (q - 1) * chunk) by (nonlinear_arith)
                requires
                    0 <= i <= q - 1,
                    chunk >= 1,
            ;
            assert((q - 1) * chunk == q * chunk - chunk) by (nonlinear_arith);
        }
        assert((q - 1) * chunk == q * chunk - chunk) by (nonlinear_arith);
    }
}

proof fn lemma_spans_lines_from(d: Seq<u8>, chunk: nat, i: int)
    requires
        chunk >= 1,
        d.len() <= u64::MAX,
        0 <= i < span_count(chunk, d.len()),
    ensures
        spans_lines_from(d, chunk, plan(chunk, d.len()), i) == span_lines_from(
            d,
            resolved_start(d, i * chunk),
            d.len() as int,
        ),
    decreases span_count(chunk, d.len()) - i,
{
    let starts = plan(chunk, d.len());
    let k = span_count(chunk, d.len()) as int;
    lemma_plan(chunk, d.len());
    assert(i * chunk < d.len() || i == 0);
    assert(starts[i] as int == i * chunk);
    lemma_resolved_start(d, i * chunk);
    if i + 1 < k {
        assert((i + 1) * chunk == i * chunk + chunk) by (nonlinear_arith);
        assert((i + 1) * chunk < d.len() || i + 1 == 0);
        lemma_spans_lines_from(d, chunk, i + 1);
        lemma_resolved_start(d, (i + 1) * chunk);
        lemma_span_split(d, resolved_start(d, i * chunk), (i + 1) * chunk);
    } else {
        assert(span_end(d, chunk, i * chunk) == d.len());
        assert(spans_lines_from(d, chunk, starts, i + 1) == Seq::<Seq<u8>>::empty());
        assert(spans_lines_from(d, chunk, starts, i) =~= span_lines(d, chunk, i * chunk));
    }
}

/// Reading the spans one after another yields every line of the file exactly
/// once, in file order: no line is read by two spans and none is missed.
pub proof fn lemma_spans_partition_lines(d: Seq<u8>, chunk: nat)
    requires
        chunk >= 1,
        d.len() <= u64::MAX,
    ensures
        all_span_lines(d, chunk) == file_lines(d),
{
    lemma_plan(chunk, d.len());
    lemma_spans_lines_from(d, chunk, 0);
    assert(0 * chunk == 0);
}

proof fn lemma_join_lines_from(d: Seq<u8>, p: int)
    requires
        0 <= p < d.len(),
        is_boundary(d, p),
    ensures
        join_lines(span_lines_from(d, p, d.len() as int)) == trim_last_newline(d).subrange(
            p,
            trim_last_newline(d).len() as int,
        ),
    decreases d.len() - p,
{
    lemma_line_end(d, p);
    let n = line_end(d, p);
    let line = d.subrange(p, n);
    let t = trim_last_newline(d);
    let ls = span_lines_from(d, p, d.len() as int);
    let rest = span_lines_from(d, n + 1, d.len() as int);
    assert(ls == seq![line] + rest);
    if n == d.len() {
        assert(d[d.len() - 1] != NEWLINE);
        assert(rest == Seq::<Seq<u8>>::empty());
        assert(ls =~= seq![line]);
        assert(t.subrange(p, t.len() as int) =~= line);
    } else if n + 1 == d.len() {
        assert(rest == Seq::<Seq<u8>>::empty());
        assert(ls =~= seq![line]);
        assert(t.subrange(p, t.len() as int) =~= line);
    } else {
        lemma_join_lines_from(d, n + 1);
        lemma_line_end(d, n + 1);
        assert(rest.len() > 0);
        assert(ls.drop_first() =~= rest);
        assert(t.subrange(p, t.len() as int) =~= line + seq![NEWLINE] + t.subrange(
            n + 1,
            t.len() as int,
        ));
    }
}

/// Joining the lines of all spans, span after span, with the terminator gives
/// back the file, but for a final terminator that it may have had.
pub proof fn lemma_spans_round_trip(d: Seq<u8>, chunk: nat)
    requires
        chunk >= 1,
        d.len() <= u64::MAX,
    ensures
        join_lines(all_span_lines(d, chunk)) == trim_last_newline(d),
{
    lemma_spans_partition_lines(d, chunk);
    if d.len() == 0 {
        assert(file_lines(d) == Seq::<Seq<u8>>::empty());
        assert(trim_last_newline(d) =~= d);
    } else {
        lemma_join_lines_from(d, 0);
        assert(trim_last_newline(d).subrange(0, trim_last_newline(d).len() as int)
            =~= trim_last_newline(d));
    }
}

/// `l` is a whole line of the file: it runs from a line start to the next
/// terminator, or to the end of the file.
pub open spec fn is_whole_line(d: Seq<u8>, l: Seq<u8>) -> bool {
    exists|q: int| 0 <= q < d.len() && is_boundary(d, q) && l == d.subrange(q, line_end(d, q))
}

proof fn lemma_lines_from_whole(d: Seq<u8>, p: int, e: int)
    requires
        0 <= p <= d.len() + 1,
        p <= d.len() ==> is_boundary(d, p),
    ensures
        forall|i: int|
            0 <= i < span_lines_from(d, p, e).len() ==> is_whole_line(
                d,
                #[trigger] span_lines_from(d, p, e)[i],
            ),
    decreases d.len() + 1 - p,
{
    if 0 <= p < e && p < d.len() {
        lemma_line_end(d, p);
        let n = line_end(d, p);
        lemma_lines_from_whole(d, n + 1, e);
        let ls = span_lines_from(d, p, e);
        let rest = span_lines_from(d, n + 1, e);
        assert forall|i: int| 0 <= i < ls.len() implies is_whole_line(d, #[trigger] ls[i]) by {
            if i == 0 {
                assert(ls[0] == d.subrange(p, n));
            } else {
                assert(ls[i] == rest[i - 1]);
            }
        }
    }
}

/// A span yields only whole lines, however short its nominal length: a line
/// that runs past the span's end is still read in full by the span that
/// begins it.
pub proof fn lemma_span_lines_whole(d: Seq<u8>, chunk: nat, s: int)
    requires
        0 <= s <= d.len(),
    ensures
        forall|i: int|
            0 <= i < span_lines(d, chunk, s).len() ==> is_whole_line(
                d,
                #[trigger] span_lines(d, chunk, s)[i],
            ),
{
    lemma_resolved_start(d, s);
    lemma_lines_from_whole(d, resolved_start(d, s), span_end(d, chunk, s));
}

/// `l` is the whole line that starts at an offset in `[lo, hi)`.
pub open spec fn is_line_from(d: Seq<u8>, l: Seq<u8>, lo: int, hi: int) -> bool {
    exists|q: int|
        lo <= q < hi && q < d.len() && is_boundary(d, q) && l == d.subrange(q, line_end(d, q))
}

proof fn lemma_lines_from_range(d: Seq<u8>, p: int, e: int)
    requires
        0 <= p <= d.len() + 1,
        p <= d.len() ==> is_boundary(d, p),
    ensures
        forall|i: int|
            0 <= i < span_lines_from(d, p, e).len() ==> is_line_from(
                d,
                #[trigger] span_lines_from(d, p, e)[i],
                p,
                e,
            ),
    decreases d.len() + 1 - p,
{
    if 0 <= p < e && p < d.len() {
        lemma_line_end(d, p);
        let n = line_end(d, p);
        lemma_lines_from_range(d, n + 1, e);
        let ls = span_lines_from(d, p, e);
        let rest = span_lines_from(d, n + 1, e);
        assert forall|i: int| 0 <= i < ls.len() implies is_line_from(d, #[trigger] ls[i], p, e) by {
            if i == 0 {
                assert(ls[0] == d.subrange(p, n));
            } else {
                assert(ls[i] == rest[i - 1]);
                assert(is_line_from(d, rest[i - 1], n + 1, e));
            }
        }
    }
}

/// Each line that a span yields is the whole line starting at an offset
/// within the span's own nominal range `[s, s + chunk)`. Spans' ranges are
/// disjoint, so no line is yielded by two spans.
pub proof fn lemma_span_lines_in_range(d: Seq<u8>, chunk: nat, s: int)
    requires
        0 <= s <= d.len(),
    ensures
        forall|i: int|
            0 <= i < span_lines(d, chunk, s).len() ==> is_line_from(
                d,
                #[trigger] span_lines(d, chunk, s)[i],
                s,
                s + chunk,
            ),
{
    lemma_resolved_start(d, s);
    let r = resolved_start(d, s);
    let e = span_end(d, chunk, s);
    lemma_lines_from_range(d, r, e);
    assert forall|i: int| 0 <= i < span_lines(d, chunk, s).len() implies is_line_from(
        d,
        #[trigger] span_lines(d, chunk, s)[i],
        s,
        s + chunk,
    ) by {
        assert(is_line_from(d, span_lines_from(d, r, e)[i], r, e));
    }
}

proof fn lemma_lines_from_contains(d: Seq<u8>, p0: int, e: int, p: int)
    requires
        0 <= p0 <= p < e,
        p < d.len(),
        is_boundary(d, p0),
        is_boundary(d, p),
    ensures
        span_lines_from(d, p0, e).contains(d.subrange(p, line_end(d, p))),
    decreases p - p0,
{
    lemma_line_end(d, p0);
    let n = line_end(d, p0);
    let ls = span_lines_from(d, p0, e);
    if p0 == p {
        assert(ls[0] == d.subrange(p, line_end(d, p)));
    } else {
        assert(n + 1 <= p) by {
            assert(d[p - 1] == NEWLINE);
        }
        lemma_lines_from_contains(d, n + 1, e, p);
        let rest = span_lines_from(d, n + 1, e);
        let j = choose|j: int| 0 <= j < rest.len() && rest[j] == d.subrange(p, line_end(d, p));
        assert(ls[j + 1] == rest[j]);
    }
}

/// The span whose nominal range `[s, s + chunk)` holds a line's first byte
/// yields that line whole, even where it runs past `s + chunk`.
pub proof fn lemma_span_owns_line(d: Seq<u8>, chunk: nat, s: int, p: int)
    requires
        0 <= s <= p < s + chunk,
        p < d.len(),
        is_boundary(d, p),
    ensures
        span_lines(d, chunk, s).contains(d.subrange(p, line_end(d, p))),
{
    lemma_resolved_start(d, s);
    lemma_lines_from_contains(d, resolved_start(d, s), span_end(d, chunk, s), p);
}

/// The offset of the terminator of the line that holds `p`, or the length.
fn find_line_end(data: &[u8], p: usize) -> (r: usize)
    requires
        p <= data@.len(),
    ensures
        r == line_end(data@, p as int),
{
    proof {
        lemma_line_end(data@, p as int);
    }
    let mut q: usize = p;
    while q < data.len() && data[q] != NEWLINE
        invariant
            p <= q <= data@.len(),
            line_end(data@, q as int) == line_end(data@, p as int),
        decreases data@.len() - q,
    {
        q = q + 1;
    }
    q
}

/// The lines of one span, read on demand from the file's bytes.
pub struct Chunk<'a> {
    data: &'a [u8],
    pos: usize,
    end: usize,
}

impl<'a> Chunk<'a> {
    /// The bytes of the file that the span reads.
    pub closed spec fn data(&self) -> Seq<u8> {
        self.data@
    }

    /// The lines that the span has yet to yield.
    pub closed spec fn rest(&self) -> Seq<Seq<u8>> {
        span_lines_from(self.data@, self.pos as int, self.end as int)
    }

    pub closed spec fn wf(&self) -> bool {
        self.pos <= self.data@.len() && self.end <= self.data@.len()
    }

    /// Opens the span with tentative start `start` and length `chunk`; also
    /// returns the offset where its reading begins.
    pub fn new(data: &'a [u8], chunk: usize, start: u64) -> (r: (Self, u64))
        requires
            start <= data@.len(),
        ensures
            r.0.wf(),
            r.0.data() == data@,
            r.1 == resolved_start(data@, start as int),
            r.0.rest() == span_lines(data@, chunk as nat, start as int),
    {
        let len = data.len();
        let s = start as usize;
        let skip = s != 0 && s != len && data[s - 1] != NEWLINE;
        let mut pos = s;
        if skip {
            let n = find_line_end(data, s);
            proof {
                lemma_line_end(data@, s as int);
            }
            pos = if n < len {
                n + 1
            } else {
                len
            };
        }
        let end = if chunk < len - s {
            s + chunk
        } else {
            len
        };
        (Chunk { data, pos, end }, pos as u64)
    }

    /// Yields the next line of the span, whole, without its terminator; `None`
    /// once the span's counter has reached its end.
    pub fn next(&mut self) -> (r: Option<Vec<u8>>)
        requires
            old(self).wf(),
        ensures
            final(self).wf(),
            final(self).data() == old(self).data(),
            old(self).rest().len() == 0 ==> r is None && final(self).rest() == old(self).rest(),
            old(self).rest().len() > 0 ==> r is Some && r->0@ == old(self).rest()[0]
                && final(self).rest() == old(self).rest().drop_first(),
    {
        if self.pos >= self.end {
            return None;
        }
        let n = find_line_end(self.data, self.pos);
        proof {
            lemma_line_end(self.data@, self.pos as int);
        }
        let mut line: Vec<u8> = Vec::new();
        let mut i: usize = self.pos;
        while i < n
            invariant
                self.pos <= i <= n <= self.data@.len(),
                line@ == self.data@.subrange(self.pos as int, i as int),
            decreases n - i,
        {
            line.push(self.data[i]);
            i = i + 1;
            proof {
                assert(line@ =~= self.data@.subrange(self.pos as int, i as int));
            }
        }
        let ghost before = self.rest();
        self.pos = if n < self.data.len() {
            n + 1
        } else {
            self.data.len()
        };
        proof {
            assert(before == seq![line@] + span_lines_from(self.data@, n + 1, self.end as int));
            if n == self.data@.len() {
                assert(span_lines_from(self.data@, n + 1, self.end as int) == Seq::<
                    Seq<u8>,
                >::empty());
            }
            assert(before.drop_first() =~= self.rest());
        }
        Some(line)
    }
}

/// The spans of a file cut every `chunk` bytes, handed out in file order.
pub struct Chunks<'a> {
    data: &'a [u8],
    starts: Vec<u64>,
    next: usize,
    chunk: usize,
}

impl<'a> Chunks<'a> {
    /// The bytes of the file.
    pub closed spec fn data(&self) -> Seq<u8> {
        self.data@
    }

    /// The nominal length of a span.
    pub closed spec fn chunk(&self) -> nat {
        self.chunk as nat
    }

    /// The tentative starts of the spans not handed out yet.
    pub closed spec fn remaining(&self) -> Seq<u64> {
        self.starts@.subrange(self.next as int, self.starts@.len() as int)
    }

    pub closed spec fn wf(&self) -> bool {
        &&& self.next <= self.starts@.len()
        &&& forall|i: int| 0 <= i < self.starts@.len() ==> #[trigger] self.starts@[i] <= self.data@.len()
    }

    pub fn new(data: &'a [u8], chunk: usize) -> (r: Self)
        requires
            chunk >= 1,
        ensures
            r.wf(),
            r.data() == data@,
            r.chunk() == chunk,
            r.remaining() == plan(chunk as nat, data@.len()),
    {
        let starts = split(chunk as u64, data.len() as u64);
        proof {
            lemma_plan(chunk as nat, data@.len());
            assert forall|i: int| 0 <= i < starts@.len() implies #[trigger] starts@[i] <= data@.len() by {
                assert(i * chunk < data@.len() || i == 0);
            }
            assert(starts@.subrange(0, starts@.len() as int) =~= starts@);
        }
        Chunks { data, starts, next: 0, chunk }
    }

    /// Hands out the next span, or `None` when all have been.
    pub fn next(&mut self) -> (r: Option<Chunk<'a>>)
        requires
            old(self).wf(),
        ensures
            final(self).wf(),
            final(self).data() == old(self).data(),
            final(self).chunk() == old(self).chunk(),
            old(self).remaining().len() == 0 ==> r is None && final(self).remaining() == old(self).remaining(),
            old(self).remaining().len() > 0 ==> r is Some && r->0.wf() && r->0.data() == old(self).data()
                && r->0.rest() == span_lines(old(self).data(), old(self).chunk(), old(self).remaining()[0] as int)
                && final(self).remaining() == old(self).remaining().drop_first(),
    {
        if self.next >= self.starts.len() {
            return None;
        }
        let start = self.starts[self.next];
        let (c, _) = Chunk::new(self.data, self.chunk, start);
        let ghost before = self.remaining();
        self.next = self.next + 1;
        proof {
            assert(before.drop_first() =~= self.remaining());
        }
        Some(c)
    }
}

/// The lines held by a vector of lines.
pub open spec fn lines_view(v: Seq<Vec<u8>>) -> Seq<Seq<u8>> {
    Seq::new(v.len(), |i: int| v[i]@)
}

/// Reads every span of the file cut every `chunk` bytes, one after another,
/// and returns their lines in that order: every line of the file exactly
/// once, and joined with terminators, the file up to a final terminator.
pub fn read_spans(data: &[u8], chunk: usize) -> (r: Vec<Vec<u8>>)
    requires
        chunk >= 1,
    ensures
        lines_view(r@) == all_span_lines(data@, chunk as nat),
        lines_view(r@) == file_lines(data@),
        join_lines(lines_view(r@)) == trim_last_newline(data@),
{
    let len = data.len();
    let ghost d = data@;
    assert(d.len() == len);
    let ghost starts = plan(chunk as nat, d.len());
    let ghost all = all_span_lines(d, chunk as nat);
    let mut chunks = Chunks::new(data, chunk);
    let mut r: Vec<Vec<u8>> = Vec::new();
    proof {
        assert(lines_view(r@) =~= Seq::<Seq<u8>>::empty());
        assert(all =~= lines_view(r@) + spans_lines_from(d, chunk as nat, starts, 0));
    }
    loop
        invariant
            chunks.wf(),
            chunks.data() == d,
            chunks.chunk() == chunk,
            chunks.remaining().len() <= starts.len(),
            chunks.remaining() == starts.subrange(
                starts.len() - chunks.remaining().len(),
                starts.len() as int,
            ),
            all == lines_view(r@) + spans_lines_from(
                d,
                chunk as nat,
                starts,
                starts.len() - chunks.remaining().len(),
            ),
        ensures
            all == lines_view(r@),
        decreases chunks.remaining().len(),
    {
        let ghost idx = starts.len() - chunks.remaining().len();
        let ghost rem0 = chunks.remaining();
        proof {
            if rem0.len() > 0 {
                assert(rem0[0] == starts[idx]);
            }
        }
        match chunks.next() {
            None => {
                proof {
                    assert(spans_lines_from(d, chunk as nat, starts, idx) == Seq::<
                        Seq<u8>,
                    >::empty());
                    assert(all =~= lines_view(r@));
                }
                break ;
            },
            Some(mut c) => {
                proof {
                    assert(c.rest() == span_lines(d, chunk as nat, starts[idx] as int));
                    assert(spans_lines_from(d, chunk as nat, starts, idx) == c.rest()
                        + spans_lines_from(d, chunk as nat, starts, idx + 1));
                    assert(all =~= lines_view(r@) + c.rest() + spans_lines_from(
                        d,
                        chunk as nat,
                        starts,
                        idx + 1,
                    ));
                    assert(chunks.remaining() =~= starts.subrange(idx + 1, starts.len() as int));
                }
                loop
                    invariant
                        c.wf(),
                        c.data() == d,
                        all == lines_view(r@) + c.rest() + spans_lines_from(
                            d,
                            chunk as nat,
                            starts,
                            idx + 1,
                        ),
                    ensures
                        all == lines_view(r@) + spans_lines_from(d, chunk as nat, starts, idx + 1),
                    decreases c.rest().len(),
                {
                    let ghost rest = c.rest();
                    match c.next() {
                        None => {
                            proof {
                                assert(lines_view(r@) + c.rest() =~= lines_view(r@));
                            }
                            break ;
                        },
                        Some(line) => {
                            let ghost before = lines_view(r@);
                            r.push(line);
                            proof {
                                assert(lines_view(r@) =~= before.push(rest[0]));
                                assert(before + rest =~= lines_view(r@) + rest.drop_first());
                            }
                        },
                    }
                }
            },
        }
    }
    proof {
        lemma_spans_partition_lines(d, chunk as nat);
        lemma_spans_round_trip(d, chunk as nat);
    }
    r
}

} // verus!
