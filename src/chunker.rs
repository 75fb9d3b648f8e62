use vstd::prelude::*;
use crate::manifest::{
    covered, lemma_sorted_unique, lemma_tiles_sorted, offset_of, spans_for, strictly_sorted,
    tiles, File, Span,
};

verus! {

/// Default chunk size: 256 KiB.
pub const BLOCK_SIZE: usize = 262144;

/// `data` cut into chunks of `c` bytes; the last one holds the remainder.
pub open spec fn chunks_of(data: Seq<u8>, c: nat) -> Seq<Seq<u8>>
    decreases data.len(),
{
    if data.len() == 0 || c == 0 {
        Seq::empty()
    } else if data.len() <= c {
        seq![data]
    } else {
        seq![data.subrange(0, c as int)] + chunks_of(data.subrange(c as int, data.len() as int), c)
    }
}

/// The chunks laid end to end.
pub open spec fn flatten(s: Seq<Seq<u8>>) -> Seq<u8>
    decreases s.len(),
{
    if s.len() == 0 {
        Seq::empty()
    } else {
        s[0] + flatten(s.drop_first())
    }
}

/// The length of each chunk.
pub open spec fn lengths(s: Seq<Seq<u8>>) -> Seq<usize> {
    s.map_values(|x: Seq<u8>| x.len() as usize)
}

proof fn lemma_offset_drop_first(lens: Seq<usize>, k: int)
    requires
        lens.len() > 0,
        0 <= k < lens.len(),
    ensures
        offset_of(lens, k + 1) == lens[0] + offset_of(lens.drop_first(), k),
    decreases k,
{
    let df = lens.drop_first();
    if k == 0 {
        assert(offset_of(lens, 0) == 0);
        assert(offset_of(df, 0) == 0);
    } else {
        lemma_offset_drop_first(lens, k - 1);
        assert(offset_of(lens, k + 1) == offset_of(lens, k) + lens[k]);
        assert(offset_of(df, k) == offset_of(df, k - 1) + df[k - 1]);
    }
}

/// The shape of the chunks: they lay out the input, each has `c` bytes but
/// the last, which is not empty.
proof fn lemma_chunks_shape(data: Seq<u8>, c: nat)
    requires
        0 < c <= usize::MAX,
    ensures
        ({
            let chunks = chunks_of(data, c);
            &&& flatten(chunks) == data
            &&& forall|k: int| 0 <= k < chunks.len() ==> 0 < #[trigger] chunks[k].len() <= c
            &&& forall|k: int| 0 <= k < chunks.len() - 1 ==> #[trigger] chunks[k].len() == c
            &&& chunks.len() > 0 ==> chunks[0] == data.subrange(0, chunks[0].len() as int)
        }),
    decreases data.len(),
{
    let chunks = chunks_of(data, c);
    if data.len() == 0 {
        assert(flatten(chunks) =~= data);
    } else if data.len() <= c {
        assert(chunks == seq![data]);
        assert(flatten(chunks.drop_first()) == Seq::<u8>::empty());
        assert(flatten(chunks) =~= data);
        assert(data.subrange(0, data.len() as int) =~= data);
    } else {
        let rest = data.subrange(c as int, data.len() as int);
        let rc = chunks_of(rest, c);
        lemma_chunks_shape(rest, c);
        assert(chunks.drop_first() =~= rc);
        assert(flatten(chunks) =~= data);
        assert forall|k: int| 0 <= k < chunks.len() implies 0 < #[trigger] chunks[k].len() <= c by {
            if k > 0 {
                assert(chunks[k] == rc[k - 1]);
            }
        }
        assert forall|k: int| 0 <= k < chunks.len() - 1 implies #[trigger] chunks[k].len() == c by {
            if k > 0 {
                assert(chunks[k] == rc[k - 1]);
            }
        }
    }
}

/// Each chunk holds the input's bytes at its offset.
#[verifier::spinoff_prover]
#[verifier::rlimit(50)]
proof fn lemma_chunks_at_offsets(data: Seq<u8>, c: nat)
    requires
        0 < c <= usize::MAX,
    ensures
        ({
            let chunks = chunks_of(data, c);
            let lens = lengths(chunks);
            &&& offset_of(lens, lens.len() as int) == data.len()
            &&& forall|k: int|
                0 <= k < chunks.len() ==> #[trigger] chunks[k] == data.subrange(
                    offset_of(lens, k),
                    offset_of(lens, k + 1),
                )
        }),
    decreases data.len(),
{
    let chunks = chunks_of(data, c);
    let lens = lengths(chunks);
    lemma_chunks_shape(data, c);
    if data.len() == 0 {
    } else if data.len() <= c {
        assert(chunks == seq![data]);
        assert(offset_of(lens, 0) == 0);
        assert(offset_of(lens, 1) == data.len());
        assert(data.subrange(0, data.len() as int) =~= data);
    } else {
        let rest = data.subrange(c as int, data.len() as int);
        let rc = chunks_of(rest, c);
        let rl = lengths(rc);
        lemma_chunks_at_offsets(rest, c);
        assert(chunks.drop_first() =~= rc);
        assert(lens.drop_first() =~= rl);
        assert(lens[0] == c);
        assert(offset_of(lens, 0) == 0);
        lemma_offset_drop_first(lens, lens.len() - 1);
        assert forall|k: int| 0 <= k < chunks.len() implies #[trigger] chunks[k] == data.subrange(
            offset_of(lens, k),
            offset_of(lens, k + 1),
        ) by {
            lemma_offset_drop_first(lens, k);
            if k == 0 {
                assert(offset_of(rl, 0) == 0);
            } else {
                lemma_offset_drop_first(lens, k - 1);
                assert(chunks[k] == rc[k - 1]);
                lemma_offset_bounds(rl, k - 1, k);
                lemma_offset_bounds(rl, k, rl.len() as int);
                assert(rc[k - 1] == rest.subrange(offset_of(rl, k - 1), offset_of(rl, k)));
                assert(rest.subrange(offset_of(rl, k - 1), offset_of(rl, k)) =~= data.subrange(
                    c + offset_of(rl, k - 1),
                    c + offset_of(rl, k),
                ));
            }
        }
    }
}

/// Cutting bytes into chunks of `c` and laying the chunks end to end from
/// offset zero gives ranges that tile the whole input, each range holding
/// exactly the input's bytes there: reading the ranges in order gives the
/// input back. Every chunk has `c` bytes but the last, which is not empty.
pub proof fn lemma_chunk_round_trip(data: Seq<u8>, c: nat, links: Seq<Seq<u8>>)
    requires
        0 < c <= usize::MAX,
        data.len() <= u64::MAX,
        links.len() == chunks_of(data, c).len(),
    ensures
        ({
            let chunks = chunks_of(data, c);
            let lens = lengths(chunks);
            &&& flatten(chunks) == data
            &&& tiles(spans_for(lens, links))
            &&& covered(spans_for(lens, links)) == data.len()
            &&& forall|k: int|
                0 <= k < chunks.len() ==> #[trigger] chunks[k] == data.subrange(
                    offset_of(lens, k),
                    offset_of(lens, k + 1),
                )
            &&& forall|k: int| 0 <= k < chunks.len() ==> 0 < #[trigger] chunks[k].len() <= c
            &&& forall|k: int| 0 <= k < chunks.len() - 1 ==> #[trigger] chunks[k].len() == c
        }),
{
    let chunks = chunks_of(data, c);
    let lens = lengths(chunks);
    lemma_chunks_shape(data, c);
    lemma_chunks_at_offsets(data, c);
    let sp = spans_for(lens, links);
    assert forall|k: int| 0 <= k <= lens.len() implies 0 <= #[trigger] offset_of(lens, k) <= data.len() by {
        lemma_offset_bounds(lens, k, lens.len() as int);
    }
    if sp.len() > 0 {
        assert(offset_of(lens, 0) == 0);
    }
    assert forall|i: int| 0 <= i < sp.len() implies #[trigger] sp[i].0 < sp[i].1 by {
        assert(chunks[i].len() > 0);
        assert(offset_of(lens, i + 1) == offset_of(lens, i) + lens[i]);
        assert(0 <= offset_of(lens, i) && offset_of(lens, i + 1) <= data.len()) by {
            lemma_offset_bounds(lens, i, lens.len() as int);
            lemma_offset_bounds(lens, i + 1, lens.len() as int);
        }
    }
    assert forall|i: int| 0 <= i < sp.len() - 1 implies #[trigger] sp[i].1 == sp[i + 1].0 by {}
}

proof fn lemma_offset_bounds(lens: Seq<usize>, k: int, m: int)
    requires
        0 <= k <= m <= lens.len(),
    ensures
        0 <= offset_of(lens, k) <= offset_of(lens, m),
    decreases m,
{
    if m == 0 {
        assert(offset_of(lens, 0) == 0);
    } else if k == m {
        lemma_offset_bounds(lens, k - 1, m - 1);
        assert(offset_of(lens, m) == offset_of(lens, m - 1) + lens[m - 1]);
    } else {
        lemma_offset_bounds(lens, k, m - 1);
        assert(offset_of(lens, m) == offset_of(lens, m - 1) + lens[m - 1]);
    }
}

proof fn lemma_chunks_step(data: Seq<u8>, c: nat, pos: int)
    requires
        c > 0,
        0 <= pos < data.len(),
    ensures
        ({
            let end = if pos + c < data.len() { pos + c } else { data.len() as int };
            chunks_of(data.subrange(pos, data.len() as int), c) == seq![data.subrange(pos, end)] + chunks_of(
                data.subrange(end, data.len() as int),
                c,
            )
        }),
{
    let rest = data.subrange(pos, data.len() as int);
    if rest.len() <= c {
        assert(data.subrange(data.len() as int, data.len() as int) =~= Seq::<u8>::empty());
        assert(chunks_of(Seq::<u8>::empty(), c) == Seq::<Seq<u8>>::empty());
        assert(seq![rest] + Seq::<Seq<u8>>::empty() =~= seq![rest]);
    } else {
        assert(rest.subrange(0, c as int) =~= data.subrange(pos, pos + c));
        assert(rest.subrange(c as int, rest.len() as int) =~= data.subrange(pos + c, data.len() as int));
    }
}

/// Cuts `data` into chunks of `c` bytes; the last one holds the remainder.
pub fn split_chunks(data: &[u8], c: usize) -> (r: Vec<Vec<u8>>)
    requires
        c > 0,
    ensures
        r@.map_values(|v: Vec<u8>| v@) == chunks_of(data@, c as nat),
{
    let mut out: Vec<Vec<u8>> = Vec::new();
    let mut pos: usize = 0;
    let n = data.len();
    assert(data@.subrange(0, n as int) =~= data@);
    while pos < n
        invariant
            n == data@.len(),
            c > 0,
            pos <= n,
            out@.map_values(|v: Vec<u8>| v@) + chunks_of(data@.subrange(pos as int, n as int), c as nat)
                == chunks_of(data@, c as nat),
        decreases n - pos,
    {
        let end = if n - pos > c {
            pos + c
        } else {
            n
        };
        let mut chunk: Vec<u8> = Vec::new();
        let mut i: usize = pos;
        while i < end
            invariant
                pos <= i <= end <= n,
                n == data@.len(),
                chunk@ == data@.subrange(pos as int, i as int),
            decreases end - i,
        {
            chunk.push(data[i]);
            i = i + 1;
            assert(chunk@ =~= data@.subrange(pos as int, i as int));
        }
        proof {
            lemma_chunks_step(data@, c as nat, pos as int);
        }
        let ghost before = out@.map_values(|v: Vec<u8>| v@);
        out.push(chunk);
        assert(out@.map_values(|v: Vec<u8>| v@) =~= before.push(chunk@));
        assert(before.push(chunk@) + chunks_of(data@.subrange(end as int, n as int), c as nat) =~= before + (seq![
            chunk@,
        ] + chunks_of(data@.subrange(end as int, n as int), c as nat)));
        pos = end;
    }
    assert(data@.subrange(n as int, n as int) =~= Seq::<u8>::empty());
    assert(out@.map_values(|v: Vec<u8>| v@) + Seq::<Seq<u8>>::empty() =~= out@.map_values(|v: Vec<u8>| v@));
    out
}

/// Cuts a stream into chunks as its bytes arrive, in reads of any length: a
/// short read counts toward the current chunk, and only the end of the
/// stream closes a chunk early.
#[derive(Debug)]
pub struct Chunker {
    size: usize,
    offset: u64,
    current: Vec<u8>,
}

impl Chunker {
    /// The chunk size.
    pub closed spec fn chunk_size(&self) -> nat {
        self.size as nat
    }

    /// Offset of the chunk being filled.
    pub closed spec fn offset(&self) -> nat {
        self.offset as nat
    }

    /// Bytes of the chunk being filled.
    pub closed spec fn pending(&self) -> Seq<u8> {
        self.current@
    }

    pub open spec fn wf(&self) -> bool {
        0 < self.chunk_size() && self.pending().len() < self.chunk_size()
    }

    /// A chunker for chunks of `size` bytes, starting at offset zero.
    pub fn new(size: usize) -> (r: Chunker)
        requires
            size > 0,
        ensures
            r.wf(),
            r.chunk_size() == size,
            r.offset() == 0,
            r.pending().len() == 0,
    {
        Chunker { size, offset: 0, current: Vec::new() }
    }

    /// How many bytes complete the current chunk: the most that `push` takes.
    pub fn room(&self) -> (r: usize)
        requires
            self.wf(),
        ensures
            r == self.chunk_size() - self.pending().len(),
            r > 0,
    {
        self.size - self.current.len()
    }

    /// Takes the bytes of one read. When they complete the current chunk,
    /// hands it back with its offset.
    pub fn push(&mut self, bytes: &[u8]) -> (r: Option<(u64, Vec<u8>)>)
        requires
            old(self).wf(),
            bytes@.len() <= old(self).chunk_size() - old(self).pending().len(),
            old(self).offset() + old(self).chunk_size() <= u64::MAX,
        ensures
            final(self).wf(),
            final(self).chunk_size() == old(self).chunk_size(),
            ({
                let all = old(self).pending() + bytes@;
                if all.len() == old(self).chunk_size() {
                    &&& r matches Some((off, chunk)) && off == old(self).offset() && chunk@ == all
                    &&& final(self).offset() == old(self).offset() + old(self).chunk_size()
                    &&& final(self).pending().len() == 0
                } else {
                    &&& r is None
                    &&& final(self).offset() == old(self).offset()
                    &&& final(self).pending() == all
                }
            }),
    {
        let ghost start = self.current@;
        let mut i: usize = 0;
        while i < bytes.len()
            invariant
                i <= bytes@.len(),
                self.current@ == start + bytes@.subrange(0, i as int),
                self.size == old(self).size,
                self.offset == old(self).offset,
            decreases bytes@.len() - i,
        {
            self.current.push(bytes[i]);
            i = i + 1;
            assert(self.current@ =~= start + bytes@.subrange(0, i as int));
        }
        assert(bytes@.subrange(0, i as int) =~= bytes@);
        if self.current.len() == self.size {
            let mut chunk: Vec<u8> = Vec::new();
            core::mem::swap(&mut chunk, &mut self.current);
            let off = self.offset;
            self.offset = self.offset + self.size as u64;
            Some((off, chunk))
        } else {
            None
        }
    }

    /// Ends the stream: the last, shorter chunk with its offset, if any
    /// bytes are pending.
    pub fn finish(self) -> (r: Option<(u64, Vec<u8>)>)
        ensures
            self.pending().len() == 0 ==> r is None,
            self.pending().len() > 0 ==> (r matches Some((off, chunk)) && off == self.offset() && chunk@
                == self.pending()),
    {
        if self.current.len() == 0 {
            None
        } else {
            Some((self.offset, self.current))
        }
    }
}

/// Cutting a stream chunk by chunk as `Chunker` does gives `chunks_of` the
/// whole stream: where the bytes so far end on a chunk boundary (`k` full
/// chunks), a next piece of at most `c` bytes, full or the last, is the next
/// chunk.
pub proof fn lemma_chunks_append(done: Seq<u8>, piece: Seq<u8>, c: nat, k: nat)
    requires
        c > 0,
        done.len() == k * c,
        0 < piece.len() <= c,
    ensures
        chunks_of(done + piece, c) == chunks_of(done, c).push(piece),
    decreases k,
{
    if k == 0 {
        assert(done.len() == 0) by (nonlinear_arith)
            requires
                done.len() == k * c,
                k == 0,
        ;
        assert(done + piece =~= piece);
        assert(chunks_of(done, c) == Seq::<Seq<u8>>::empty());
        assert(Seq::<Seq<u8>>::empty().push(piece) =~= seq![piece]);
    } else {
        assert(done.len() >= c && done.len() - c == (k - 1) * c) by (nonlinear_arith)
            requires
                done.len() == k * c,
                k >= 1,
        ;
        let all = done + piece;
        let rest = done.subrange(c as int, done.len() as int);
        lemma_chunks_append(rest, piece, c, (k - 1) as nat);
        assert(all.subrange(0, c as int) =~= done.subrange(0, c as int));
        assert(all.subrange(c as int, all.len() as int) =~= rest + piece);
        if done.len() == c {
            assert(rest =~= Seq::<u8>::empty());
            assert(chunks_of(rest, c) == Seq::<Seq<u8>>::empty());
            assert(done.subrange(0, c as int) =~= done);
            assert(chunks_of(done, c) == seq![done]);
        }
        assert(chunks_of(done, c) == seq![done.subrange(0, c as int)] + chunks_of(rest, c));
        assert(chunks_of(all, c) =~= chunks_of(done, c).push(piece));
    }
}

/// How many chunks `c` bytes cut an input into, and the length of the last:
/// every chunk but the last is full, so there are just enough chunks to hold
/// the input.
pub proof fn lemma_chunk_count(data: Seq<u8>, c: nat)
    requires
        0 < c <= usize::MAX,
    ensures
        ({
            let m = chunks_of(data, c).len();
            &&& m * c >= data.len()
            &&& data.len() > 0 ==> m >= 1 && (m - 1) * c < data.len() && chunks_of(data, c).last().len() == data.len()
                - (m - 1) * c
            &&& data.len() == 0 ==> m == 0
        }),
    decreases data.len(),
{
    let chunks = chunks_of(data, c);
    if data.len() == 0 {
    } else if data.len() <= c {
        assert(chunks == seq![data]);
    } else {
        let rest = data.subrange(c as int, data.len() as int);
        lemma_chunk_count(rest, c);
        let m2 = chunks_of(rest, c).len();
        assert(chunks == seq![data.subrange(0, c as int)] + chunks_of(rest, c));
        assert(chunks.last() == chunks_of(rest, c).last());
        assert((m2 + 1) * c >= data.len() && m2 * c < data.len() && data.len() - m2 * c == rest.len() - (m2 - 1)
            * c) by (nonlinear_arith)
            requires
                m2 * c >= rest.len(),
                m2 >= 1,
                (m2 - 1) * c < rest.len(),
                rest.len() == data.len() - c,
        ;
    }
}

/// The counts for inputs of 0, 1, `c`, `c + 1` and `10 c` bytes: no chunk,
/// one of 1 byte, one of `c`, two with a last of 1 byte, ten full ones.
pub proof fn lemma_chunk_counts(data: Seq<u8>, c: nat)
    requires
        0 < c <= usize::MAX,
    ensures
        data.len() == 0 ==> chunks_of(data, c).len() == 0,
        data.len() == 1 ==> chunks_of(data, c).len() == 1 && chunks_of(data, c).last().len() == 1,
        data.len() == c ==> chunks_of(data, c).len() == 1 && chunks_of(data, c).last().len() == c,
        data.len() == c + 1 ==> chunks_of(data, c).len() == 2 && chunks_of(data, c).last().len() == 1,
        data.len() == 10 * c ==> chunks_of(data, c).len() == 10 && chunks_of(data, c).last().len() == c,
{
    lemma_chunk_count(data, c);
    let m = chunks_of(data, c).len();
    if data.len() == 1 {
        assert(m == 1) by (nonlinear_arith)
            requires
                m >= 1,
                (m - 1) * c < 1,
                c > 0,
        ;
    }
    if data.len() == c {
        assert(m == 1) by (nonlinear_arith)
            requires
                m >= 1,
                (m - 1) * c < c,
                c > 0,
        ;
    }
    if data.len() == c + 1 {
        assert(m == 2) by (nonlinear_arith)
            requires
                m >= 1,
                (m - 1) * c < c + 1,
                m * c >= c + 1,
                c > 0,
        ;
        assert((m - 1) * c == c) by (nonlinear_arith)
            requires
                m == 2,
        ;
    }
    if data.len() == 10 * c {
        assert(m == 10) by (nonlinear_arith)
            requires
                m >= 1,
                (m - 1) * c < 10 * c,
                m * c >= 10 * c,
                c > 0,
        ;
        assert((m - 1) * c == 9 * c) by (nonlinear_arith)
            requires
                m == 10,
        ;
    }
}

/// The ranges of the chunks start strictly one after another.
#[verifier::spinoff_prover]
proof fn lemma_chunk_spans_strict(data: Seq<u8>, c: nat, links: Seq<Seq<u8>>)
    requires
        0 < c <= usize::MAX,
        data.len() <= u64::MAX,
        links.len() == chunks_of(data, c).len(),
    ensures
        strictly_sorted(spans_for(lengths(chunks_of(data, c)), links)),
{
    let chunks = chunks_of(data, c);
    let lens = lengths(chunks);
    let s = spans_for(lens, links);
    lemma_chunks_shape(data, c);
    lemma_chunks_at_offsets(data, c);
    assert forall|i: int, j: int| 0 <= i < j < s.len() implies s[i].0 < s[j].0 by {
        assert(chunks[i].len() > 0);
        assert(lens[i] == chunks[i].len());
        assert(offset_of(lens, i + 1) == offset_of(lens, i) + lens[i]);
        lemma_offset_bounds(lens, i, i + 1);
        lemma_offset_bounds(lens, i + 1, j);
        lemma_offset_bounds(lens, j, lens.len() as int);
    }
}

/// Ordered by range means ordered by start.
proof fn lemma_range_sorted_by_start(t: Seq<Span>)
    requires
        crate::manifest::sorted_by_range(t),
    ensures
        crate::manifest::sorted_by_start(t),
{
    assert forall|i: int, j: int| 0 <= i < j < t.len() implies t[i].0 <= t[j].0 by {
        assert(crate::manifest::range_le(t[i], t[j]));
    }
}

/// The whole round trip: cut `data` into chunks of `c` bytes, store chunk
/// `k` under `links[k]`, and build the manifest over the chunk lengths and
/// links (what `build_manifest` returns). Then the manifest lists the chunks
/// in order, covers `data`, and fetching the block of each range in the
/// manifest's order and laying the blocks end to end gives `data` back.
#[verifier::spinoff_prover]
#[verifier::rlimit(80)]
pub proof fn lemma_import_round_trip(
    data: Seq<u8>,
    c: nat,
    links: Seq<Seq<u8>>,
    store: Map<Seq<u8>, Seq<u8>>,
    f: File,
)
    requires
        0 < c <= usize::MAX,
        data.len() <= u64::MAX,
        links.len() == chunks_of(data, c).len(),
        forall|k: int|
            0 <= k < links.len() ==> store.contains_key(#[trigger] links[k]) && store[links[k]] == chunks_of(
                data,
                c,
            )[k],
        f.wf(),
        f.spans().to_multiset() == spans_for(lengths(chunks_of(data, c)), links).to_multiset(),
    ensures
        f.spans() == spans_for(lengths(chunks_of(data, c)), links),
        f.size == data.len(),
        flatten(Seq::new(f.spans().len(), |k: int| store[f.spans()[k].2])) == data,
{
    let chunks = chunks_of(data, c);
    let lens = lengths(chunks);
    let s = spans_for(lens, links);
    lemma_chunk_round_trip(data, c, links);
    lemma_chunk_spans_strict(data, c, links);
    lemma_tiles_sorted(f.spans());
    lemma_range_sorted_by_start(f.spans());
    lemma_sorted_unique(s, f.spans());
    let fetched = Seq::new(f.spans().len(), |k: int| store[f.spans()[k].2]);
    assert(fetched =~= chunks);
}

} // verus!
