//! Splitting a byte stream into complete lines.
//!
//! A stream arrives in chunks whose boundaries have nothing to do with the
//! lines in it. [`FrameReader`] keeps the bytes of the line that is still
//! open in a buffer of fixed size and hands out every line as soon as its
//! line feed has arrived.

use vstd::prelude::*;

verus! {

/// The byte that ends a line.
pub const LINE_FEED: u8 = 10;

/// Size of the buffer that a reader gets by default.
pub const UDSOCKET_BUFFER_SIZE: usize = 1024;

/// Offset of the first line feed in `s`, or `s.len()` where `s` holds none.
pub open spec fn first_feed(s: Seq<u8>) -> int
    decreases s.len(),
{
    if s.len() == 0 || s[0] == LINE_FEED {
        0
    } else {
        1 + first_feed(s.drop_first())
    }
}

/// The lines of `s` that are closed by a line feed, in their order and
/// without the line feed.
pub open spec fn complete_lines(s: Seq<u8>) -> Seq<Seq<u8>>
    decreases s.len(),
{
    let i = first_feed(s);
    if 0 <= i < s.len() {
        seq![s.take(i)] + complete_lines(s.skip(i + 1))
    } else {
        Seq::empty()
    }
}

/// What follows the last line feed of `s`: the start of a line that is
/// still open.
pub open spec fn remainder(s: Seq<u8>) -> Seq<u8>
    decreases s.len(),
{
    let i = first_feed(s);
    if 0 <= i < s.len() {
        remainder(s.skip(i + 1))
    } else {
        s
    }
}

/// The bytes of a stream that gave `lines` and then left `tail` open.
pub open spec fn rebuild(lines: Seq<Seq<u8>>, tail: Seq<u8>) -> Seq<u8>
    decreases lines.len(),
{
    if lines.len() == 0 {
        tail
    } else {
        lines[0].push(LINE_FEED) + rebuild(lines.drop_first(), tail)
    }
}

/// What a reader that holds `carry` hands out, and what it keeps, when the
/// chunks are fed to it one after the other.
pub open spec fn feed_all(carry: Seq<u8>, chunks: Seq<Seq<u8>>) -> (Seq<Seq<u8>>, Seq<u8>)
    decreases chunks.len(),
{
    if chunks.len() == 0 {
        (Seq::empty(), carry)
    } else {
        let data = carry + chunks[0];
        let rest = feed_all(remainder(data), chunks.drop_first());
        (complete_lines(data) + rest.0, rest.1)
    }
}

/// `first_feed` stays within `s`, points at a line feed unless it is
/// `s.len()`, and nothing before it is a line feed.
pub proof fn lemma_first_feed(s: Seq<u8>)
    ensures
        0 <= first_feed(s) <= s.len(),
        first_feed(s) < s.len() ==> s[first_feed(s)] == LINE_FEED,
        forall|i: int| 0 <= i < first_feed(s) ==> s[i] != LINE_FEED,
    decreases s.len(),
{
    if s.len() != 0 && s[0] != LINE_FEED {
        let t = s.drop_first();
        lemma_first_feed(t);
        assert forall|i: int| 0 <= i < first_feed(s) implies s[i] != LINE_FEED by {
            if i > 0 {
                assert(s[i] == t[i - 1]);
            }
        }
    }
}

/// An offset with a line feed (or the end of `s`) and none before it is
/// `first_feed(s)`.
pub proof fn lemma_first_feed_is(s: Seq<u8>, k: int)
    requires
        0 <= k <= s.len(),
        k < s.len() ==> s[k] == LINE_FEED,
        forall|i: int| 0 <= i < k ==> s[i] != LINE_FEED,
    ensures
        first_feed(s) == k,
{
    lemma_first_feed(s);
    let f = first_feed(s);
    if f < k {
        assert(s[f] != LINE_FEED);
    }
}

/// Bytes without a line feed hold no complete line and are their own
/// remainder.
pub proof fn lemma_open_line(s: Seq<u8>)
    requires
        !s.contains(LINE_FEED),
    ensures
        first_feed(s) == s.len(),
        complete_lines(s) == Seq::<Seq<u8>>::empty(),
        remainder(s) == s,
{
    lemma_first_feed(s);
    if first_feed(s) < s.len() {
        assert(s.contains(s[first_feed(s)]));
    }
}

/// No line that is handed out holds a line feed, and neither does the
/// remainder.
pub proof fn lemma_lines_are_clean(s: Seq<u8>)
    ensures
        forall|k: int|
            0 <= k < complete_lines(s).len() ==> !(#[trigger] complete_lines(s)[k]).contains(
                LINE_FEED,
            ),
        !remainder(s).contains(LINE_FEED),
    decreases s.len(),
{
    lemma_first_feed(s);
    let i = first_feed(s);
    if i < s.len() {
        let t = s.skip(i + 1);
        lemma_lines_are_clean(t);
        let head = s.take(i);
        assert(!head.contains(LINE_FEED)) by {
            if head.contains(LINE_FEED) {
                let j = choose|j: int| 0 <= j < head.len() && head[j] == LINE_FEED;
                assert(s[j] == LINE_FEED);
            }
        }
        assert forall|k: int| 0 <= k < complete_lines(s).len() implies !(
        #[trigger] complete_lines(s)[k]).contains(LINE_FEED) by {
            if k > 0 {
                assert(complete_lines(s)[k] == complete_lines(t)[k - 1]);
            }
        }
    } else {
        assert(!s.contains(LINE_FEED)) by {
            if s.contains(LINE_FEED) {
                let j = choose|j: int| 0 <= j < s.len() && s[j] == LINE_FEED;
                assert(s[j] == LINE_FEED);
            }
        }
    }
}

/// Nothing is lost and nothing is made up: the lines, each with its line
/// feed put back, followed by the remainder, are the bytes that came in.
pub proof fn lemma_lines_rebuild(s: Seq<u8>)
    ensures
        rebuild(complete_lines(s), remainder(s)) == s,
    decreases s.len(),
{
    lemma_first_feed(s);
    let i = first_feed(s);
    if i < s.len() {
        let t = s.skip(i + 1);
        lemma_lines_rebuild(t);
        let lines = complete_lines(s);
        assert(lines.drop_first() =~= complete_lines(t));
        assert(lines[0] == s.take(i));
        assert(s.take(i).push(LINE_FEED) + t =~= s);
    }
}

/// Cutting a stream in two changes nothing: the lines of `a + b` are the
/// lines of `a` followed by the lines of what `a` left open and `b`, and
/// the same bytes stay open at the end.
pub proof fn lemma_split_stream(a: Seq<u8>, b: Seq<u8>)
    ensures
        complete_lines(a + b) == complete_lines(a) + complete_lines(remainder(a) + b),
        remainder(a + b) == remainder(remainder(a) + b),
    decreases a.len(),
{
    lemma_first_feed(a);
    let i = first_feed(a);
    if i < a.len() {
        let ab = a + b;
        lemma_first_feed_is(ab, i);
        assert(ab.skip(i + 1) =~= a.skip(i + 1) + b);
        assert(ab.take(i) =~= a.take(i));
        lemma_split_stream(a.skip(i + 1), b);
        assert(complete_lines(ab) =~= complete_lines(a) + complete_lines(remainder(a) + b));
    } else {
        assert(complete_lines(a) + complete_lines(a + b) =~= complete_lines(a + b));
    }
}

/// However a stream is cut into chunks, a reader that holds `carry` (the
/// start of an open line) hands out the lines of the whole stream, in their
/// order, and keeps what the whole stream leaves open.
pub proof fn lemma_fragments_agree(carry: Seq<u8>, chunks: Seq<Seq<u8>>)
    requires
        !carry.contains(LINE_FEED),
    ensures
        feed_all(carry, chunks).0 == complete_lines(carry + chunks.flatten()),
        feed_all(carry, chunks).1 == remainder(carry + chunks.flatten()),
    decreases chunks.len(),
{
    if chunks.len() == 0 {
        assert(carry + chunks.flatten() =~= carry);
        lemma_open_line(carry);
    } else {
        let head = chunks[0];
        let tail = chunks.drop_first();
        let data = carry + head;
        lemma_lines_are_clean(data);
        lemma_fragments_agree(remainder(data), tail);
        lemma_split_stream(data, tail.flatten());
        assert(chunks.flatten() =~= head + tail.flatten());
        assert(carry + chunks.flatten() =~= data + tail.flatten());
    }
}

/// Two ways of cutting the same stream give the same lines and leave the
/// same bytes open.
pub proof fn lemma_chunking_is_irrelevant(first: Seq<Seq<u8>>, second: Seq<Seq<u8>>)
    requires
        first.flatten() == second.flatten(),
    ensures
        feed_all(Seq::empty(), first) == feed_all(Seq::empty(), second),
{
    let none = Seq::<u8>::empty();
    assert(!none.contains(LINE_FEED));
    lemma_fragments_agree(none, first);
    lemma_fragments_agree(none, second);
}

/// A line that arrives in two reads comes out whole: after `a`, which ends
/// in the middle of a line, nothing is handed out, and once `b` and the
/// line feed have come the one line is `a + b`, with nothing left open.
pub proof fn lemma_carry_over(a: Seq<u8>, b: Seq<u8>)
    requires
        !a.contains(LINE_FEED),
        !b.contains(LINE_FEED),
    ensures
        complete_lines(a) == Seq::<Seq<u8>>::empty(),
        remainder(a) == a,
        complete_lines(remainder(a) + b.push(LINE_FEED)) == seq![a + b],
        remainder(remainder(a) + b.push(LINE_FEED)) == Seq::<u8>::empty(),
{
    lemma_open_line(a);
    let data = a + b.push(LINE_FEED);
    let k = (a.len() + b.len()) as int;
    assert forall|i: int| 0 <= i < k implies data[i] != LINE_FEED by {
        if i < a.len() {
            assert(a.contains(a[i]));
        } else {
            assert(b.contains(b[i - a.len()]));
        }
    }
    lemma_first_feed_is(data, k);
    assert(data.take(k) =~= a + b);
    assert(data.skip(k + 1) =~= Seq::<u8>::empty());
    assert(complete_lines(data.skip(k + 1)) =~= Seq::<Seq<u8>>::empty());
    assert(complete_lines(data) =~= seq![a + b]);
    assert(remainder(data.skip(k + 1)) =~= Seq::<u8>::empty());
    assert(remainder(data) =~= Seq::<u8>::empty());
}

/// What a stream leaves open is never longer than the stream.
pub proof fn lemma_remainder_is_short(s: Seq<u8>)
    ensures
        remainder(s).len() <= s.len(),
    decreases s.len(),
{
    lemma_first_feed(s);
    let i = first_feed(s);
    if i < s.len() {
        lemma_remainder_is_short(s.skip(i + 1));
    }
}

/// Why a reader took no bytes.
#[derive(Clone, Copy, Debug, PartialEq, Eq, Structural)]
pub enum FrameError {
    /// The buffer is full and holds no line feed: the open line is longer
    /// than the buffer.
    LineTooLong,
    /// The chunk is longer than the free part of the buffer.
    ChunkTooLarge,
}

/// A buffer of fixed size that collects the bytes of the line that is
/// still open.
///
/// Between two calls the bytes it holds start at offset 0 and contain no
/// line feed.
pub struct FrameReader {
    buffer: Vec<u8>,
    fill: usize,
}

impl FrameReader {
    #[verifier::type_invariant]
    spec fn well_formed(self) -> bool {
        &&& self.fill <= self.buffer@.len()
        &&& forall|i: int| 0 <= i < self.fill ==> self.buffer@[i] != LINE_FEED
    }

    /// The bytes of the open line.
    pub closed spec fn pending(self) -> Seq<u8> {
        self.buffer@.take(self.fill as int)
    }

    /// The size of the buffer.
    pub closed spec fn limit(self) -> nat {
        self.buffer@.len()
    }

    /// An empty reader with a buffer of `capacity` bytes.
    pub fn new(capacity: usize) -> (reader: FrameReader)
        ensures
            reader.limit() == capacity,
            reader.pending() == Seq::<u8>::empty(),
    {
        let mut buffer: Vec<u8> = Vec::with_capacity(capacity);
        let mut i: usize = 0;
        while i < capacity
            invariant
                i <= capacity,
                buffer@.len() == i,
            decreases capacity - i,
        {
            buffer.push(0);
            i += 1;
        }
        let reader = FrameReader { buffer, fill: 0 };
        assert(reader.pending() =~= Seq::<u8>::empty());
        reader
    }

    /// The size of the buffer.
    pub fn capacity(&self) -> (n: usize)
        ensures
            n == self.limit(),
    {
        self.buffer.len()
    }

    /// How many bytes of an open line the reader holds.
    pub fn pending_len(&self) -> (n: usize)
        ensures
            n == self.pending().len(),
            n <= self.limit(),
    {
        proof {
            use_type_invariant(self);
        }
        self.fill
    }

    /// How many bytes the next chunk may have.
    pub fn free_len(&self) -> (n: usize)
        ensures
            n == self.limit() - self.pending().len(),
    {
        proof {
            use_type_invariant(self);
        }
        self.buffer.len() - self.fill
    }

    /// A copy of the bytes of the open line.
    pub fn pending_bytes(&self) -> (bytes: Vec<u8>)
        ensures
            bytes@ == self.pending(),
            !bytes@.contains(LINE_FEED),
    {
        proof {
            use_type_invariant(self);
        }
        copy_range(&self.buffer, 0, self.fill)
    }

    /// Takes the next chunk of the stream and hands out the lines that it
    /// completes.
    ///
    /// The chunk is put behind the bytes of the open line. Every line feed
    /// closes a line, which is handed out without it. What follows the last
    /// line feed moves to the start of the buffer and waits for the next
    /// chunk. A chunk that does not fit is refused and the reader stays as
    /// it was.
    pub fn feed(&mut self, chunk: &[u8]) -> (result: Result<Vec<Vec<u8>>, FrameError>)
        ensures
            final(self).limit() == old(self).limit(),
            !final(self).pending().contains(LINE_FEED),
            match result {
                Ok(lines) => {
                    &&& old(self).pending().len() < old(self).limit()
                    &&& old(self).pending().len() + chunk@.len() <= old(self).limit()
                    &&& lines.deep_view() == complete_lines(old(self).pending() + chunk@)
                    &&& final(self).pending() == remainder(old(self).pending() + chunk@)
                    &&& forall|k: int|
                        0 <= k < lines@.len() ==> !(#[trigger] lines@[k])@.contains(LINE_FEED)
                },
                Err(FrameError::LineTooLong) => {
                    &&& old(self).pending().len() == old(self).limit()
                    &&& final(self).pending() == old(self).pending()
                },
                Err(FrameError::ChunkTooLarge) => {
                    &&& old(self).pending().len() < old(self).limit()
                    &&& old(self).pending().len() + chunk@.len() > old(self).limit()
                    &&& final(self).pending() == old(self).pending()
                },
            },
    {
        proof {
            use_type_invariant(&*self);
        }
        let start = self.fill;
        let free = self.buffer.len() - start;
        if free == 0 {
            return Err(FrameError::LineTooLong);
        }
        if chunk.len() > free {
            return Err(FrameError::ChunkTooLarge);
        }
        let end = start + chunk.len();
        let ghost carry = self.pending();
        let ghost data = carry + chunk@;
        let mut i: usize = 0;
        while i < chunk.len()
            invariant
                i <= chunk@.len(),
                start + chunk@.len() == end,
                end <= self.buffer@.len(),
                self.fill == start,
                self.buffer@.len() == old(self).buffer@.len(),
                self.buffer@.take(start as int) == carry,
                self.buffer@.subrange(start as int, start + i) == chunk@.take(i as int),
                forall|k: int| 0 <= k < start ==> self.buffer@[k] != LINE_FEED,
            decreases chunk@.len() - i,
        {
            let ghost before = self.buffer@;
            self.buffer[start + i] = chunk[i];
            assert(self.buffer@.take(start as int) =~= before.take(start as int));
            assert(self.buffer@.subrange(start as int, start + i + 1) =~= before.subrange(
                start as int,
                start + i,
            ).push(chunk@[i as int]));
            assert(chunk@.take(i + 1) =~= chunk@.take(i as int).push(chunk@[i as int]));
            i += 1;
        }
        assert(chunk@.take(chunk@.len() as int) =~= chunk@);
        assert(self.buffer@.take(end as int) =~= self.buffer@.take(start as int)
            + self.buffer@.subrange(start as int, end as int));

        let mut lines: Vec<Vec<u8>> = Vec::new();
        // The bytes before `start` hold no line feed: the scan begins behind
        // them, while the open line begins at offset 0.
        let mut scan: usize = start;
        let mut line_start: usize = 0;
        assert(data.skip(0) =~= data);
        while scan < end
            invariant
                start <= scan <= end,
                end <= self.buffer@.len(),
                self.fill == start,
                self.buffer@.len() == old(self).buffer@.len(),
                self.buffer@.take(end as int) == data,
                self.buffer@.take(start as int) == carry,
                !carry.contains(LINE_FEED),
                line_start <= scan,
                forall|i: int| line_start <= i < scan ==> data[i] != LINE_FEED,
                lines.deep_view() + complete_lines(data.skip(line_start as int)) == complete_lines(
                    data,
                ),
                remainder(data.skip(line_start as int)) == remainder(data),
            decreases end - scan,
        {
            assert(self.buffer@[scan as int] == data[scan as int]);
            if self.buffer[scan] == LINE_FEED {
                let line = copy_range(&self.buffer, line_start, scan);
                proof {
                    let rest = data.skip(line_start as int);
                    let k = scan - line_start;
                    lemma_first_feed_is(rest, k);
                    assert(rest.take(k) =~= line@);
                    assert(rest.skip(k + 1) =~= data.skip(scan + 1));
                    let before = lines.deep_view();
                    let after = before.push(line@);
                    assert(after + complete_lines(data.skip(scan + 1)) =~= before
                        + complete_lines(rest));
                }
                let ghost before = lines.deep_view();
                assert(line.deep_view() =~= line@);
                lines.push(line);
                assert(lines.deep_view() =~= before.push(line@));
                line_start = scan + 1;
            }
            scan += 1;
        }
        proof {
            let rest = data.skip(line_start as int);
            assert(!rest.contains(LINE_FEED)) by {
                if rest.contains(LINE_FEED) {
                    let j = choose|j: int| 0 <= j < rest.len() && rest[j] == LINE_FEED;
                    assert(data[line_start + j] == LINE_FEED);
                }
            }
            lemma_open_line(rest);
            assert(lines.deep_view() + Seq::<Seq<u8>>::empty() =~= lines.deep_view());
            lemma_lines_are_clean(data);
            assert forall|k: int| 0 <= k < lines@.len() implies !(#[trigger] lines@[k])@.contains(
                LINE_FEED,
            ) by {
                assert(lines@[k].deep_view() =~= lines@[k]@);
                assert(lines.deep_view()[k] == lines@[k].deep_view());
            }
        }
        let kept = end - line_start;
        self.fill = 0;
        if line_start > 0 {
            compact(&mut self.buffer, line_start, end);
        }
        assert(self.buffer@.take(kept as int) =~= data.skip(line_start as int));
        assert forall|i: int| 0 <= i < kept implies self.buffer@[i] != LINE_FEED by {
            assert(self.buffer@.take(kept as int)[i] == data[line_start + i]);
        }
        self.fill = kept;
        Ok(lines)
    }
}

/// A copy of `buffer[from..to]`.
fn copy_range(buffer: &Vec<u8>, from: usize, to: usize) -> (out: Vec<u8>)
    requires
        from <= to <= buffer@.len(),
    ensures
        out@ == buffer@.subrange(from as int, to as int),
{
    let mut out: Vec<u8> = Vec::with_capacity(to - from);
    let mut i: usize = from;
    while i < to
        invariant
            from <= i <= to <= buffer@.len(),
            out@ == buffer@.subrange(from as int, i as int),
        decreases to - i,
    {
        out.push(buffer[i]);
        assert(out@ =~= buffer@.subrange(from as int, i + 1));
        i += 1;
    }
    out
}

/// Moves `buffer[from..to]` to the start of `buffer`.
fn compact(buffer: &mut Vec<u8>, from: usize, to: usize)
    requires
        from <= to <= old(buffer)@.len(),
    ensures
        final(buffer)@.len() == old(buffer)@.len(),
        final(buffer)@.take(to - from) == old(buffer)@.subrange(from as int, to as int),
    no_unwind
{
    let n = to - from;
    let mut i: usize = 0;
    while i < n
        invariant
            i <= n,
            n == to - from,
            from <= to <= buffer@.len(),
            buffer@.len() == old(buffer)@.len(),
            forall|k: int| 0 <= k < i ==> buffer@[k] == old(buffer)@[from + k],
            forall|k: int| i <= k < buffer@.len() ==> buffer@[k] == old(buffer)@[k],
        decreases n - i,
    {
        let byte = buffer[from + i];
        buffer[i] = byte;
        i += 1;
    }
    assert(buffer@.take(to - from) =~= old(buffer)@.subrange(from as int, to as int));
}

} // verus!
