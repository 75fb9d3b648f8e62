use vstd::prelude::*;
use crate::address::Address;

verus! {

broadcast use vstd::seq_lib::group_to_multiset_ensures;

/// A range of the file and the block that holds it, as plain values:
/// `(start, end, address bytes)`.
pub type Span = (u64, u64, Seq<u8>);

/// Byte range `[start, end)` of the logical file.
#[derive(Clone, Copy, Debug, PartialEq, Eq)]
pub struct FileDataBounds(pub u64, pub u64);

/// One range of the file and the address of the block holding its bytes.
#[derive(Debug)]
pub struct FileDataEntry {
    pub bounds: FileDataBounds,
    pub link: Address,
}

/// Why a manifest could not be built.
#[derive(Clone, Copy, Debug, PartialEq, Eq)]
pub enum ManifestError {
    /// The ranges are empty, overlap, leave a gap, or do not start at zero.
    MalformedRanges,
}

/// A file described as an ordered list of byte ranges, each linked to the
/// block that stores it.
#[derive(Debug)]
pub struct File {
    pub data: Vec<FileDataEntry>,
    pub size: u64,
    /// The kind of node, as text: "file" for manifests built here.
    pub kind: Vec<u8>,
}

/// The text "file".
pub open spec fn file_kind() -> Seq<u8> {
    seq![0x66u8, 0x69, 0x6c, 0x65]
}

pub open spec fn span_of(e: FileDataEntry) -> Span {
    (e.bounds.0, e.bounds.1, e.link@)
}

pub open spec fn spans_of(s: Seq<FileDataEntry>) -> Seq<Span> {
    s.map_values(|e: FileDataEntry| span_of(e))
}

/// Ordered by start, ties allowed.
pub open spec fn sorted_by_start(s: Seq<Span>) -> bool {
    forall|i: int, j: int| 0 <= i < j < s.len() ==> s[i].0 <= s[j].0
}

/// `a`'s range comes no later than `b`'s: by start, then by end.
pub open spec fn range_le(a: Span, b: Span) -> bool {
    a.0 < b.0 || (a.0 == b.0 && a.1 <= b.1)
}

/// Ordered by range, ties allowed.
pub open spec fn sorted_by_range(s: Seq<Span>) -> bool {
    forall|i: int, j: int| 0 <= i < j < s.len() ==> range_le(s[i], s[j])
}

/// The spans cover `[0, end)` one after another: the first starts at zero,
/// none ends before it starts, and each ends where the next starts.
pub open spec fn tiles(s: Seq<Span>) -> bool {
    &&& (s.len() > 0 ==> s[0].0 == 0)
    &&& forall|i: int| 0 <= i < s.len() ==> #[trigger] s[i].0 <= s[i].1
    &&& forall|i: int| 0 <= i < s.len() - 1 ==> #[trigger] s[i].1 == s[i + 1].0
}

/// Total length covered by tiling spans.
pub open spec fn covered(s: Seq<Span>) -> u64 {
    if s.len() == 0 {
        0
    } else {
        s.last().1
    }
}

/// Some arrangement of the spans tiles the file.
pub open spec fn can_tile(s: Seq<Span>) -> bool {
    exists|t: Seq<Span>| t.to_multiset() == s.to_multiset() && tiles(t)
}

/// Start of each chunk when chunks of the given lengths are laid end to end.
pub open spec fn offset_of(lens: Seq<usize>, k: int) -> int
    decreases k,
{
    if k <= 0 {
        0
    } else {
        offset_of(lens, k - 1) + lens[k - 1]
    }
}

/// The spans of chunks of the given lengths, laid end to end from zero.
pub open spec fn spans_for(lens: Seq<usize>, links: Seq<Seq<u8>>) -> Seq<Span> {
    Seq::new(
        lens.len(),
        |k: int| (offset_of(lens, k) as u64, offset_of(lens, k + 1) as u64, links[k]),
    )
}

proof fn lemma_offset_monotone(lens: Seq<usize>, i: int, j: int)
    requires
        0 <= i <= j,
    ensures
        offset_of(lens, i) <= offset_of(lens, j),
    decreases j - i,
{
    if i < j {
        lemma_offset_monotone(lens, i, j - 1);
    }
}

impl FileDataEntry {
    /// The entry for `size` bytes at offset `pos`.
    pub fn new(pos: u64, size: usize, link: Address) -> (r: Result<FileDataEntry, ManifestError>)
        ensures
            r is Ok <==> pos + size <= u64::MAX,
            r matches Ok(e) ==> span_of(e) == (pos, (pos + size) as u64, link@),
            r matches Err(e) ==> e == ManifestError::MalformedRanges,
    {
        if size as u64 > u64::MAX - pos {
            return Err(ManifestError::MalformedRanges);
        }
        Ok(FileDataEntry { bounds: FileDataBounds(pos, pos + size as u64), link })
    }
}

/// Lays chunks of the given lengths end to end from offset zero and builds
/// the manifest over them; fails where the total length does not fit in `u64`.
pub fn build_manifest(chunks: Vec<(usize, Address)>) -> (r: Result<File, ManifestError>)
    ensures
        ({
            let lens = chunks@.map_values(|c: (usize, Address)| c.0);
            let links = chunks@.map_values(|c: (usize, Address)| c.1@);
            &&& r is Ok <==> offset_of(lens, lens.len() as int) <= u64::MAX && can_tile(spans_for(lens, links))
            &&& r matches Ok(f) ==> f.wf() && f.spans().to_multiset() == spans_for(lens, links).to_multiset()
                && f.kind@ == file_kind()
            &&& r matches Err(e) ==> e == ManifestError::MalformedRanges
        }),
{
    let ghost lens = chunks@.map_values(|c: (usize, Address)| c.0);
    let ghost links = chunks@.map_values(|c: (usize, Address)| c.1@);
    let mut entries: Vec<FileDataEntry> = Vec::new();
    let mut pos: u64 = 0;
    let mut i: usize = 0;
    let n = chunks.len();
    while i < n
        invariant
            n == chunks@.len(),
            lens == chunks@.map_values(|c: (usize, Address)| c.0),
            links == chunks@.map_values(|c: (usize, Address)| c.1@),
            i <= n,
            pos == offset_of(lens, i as int),
            spans_of(entries@) == spans_for(lens, links).subrange(0, i as int),
        decreases n - i,
    {
        let (len, link) = (chunks[i].0, chunks[i].1.duplicate());
        match FileDataEntry::new(pos, len, link) {
            Err(e) => {
                proof {
                    assert(offset_of(lens, i + 1) > u64::MAX);
                    lemma_offset_monotone(lens, i + 1, n as int);
                }
                return Err(e);
            }
            Ok(entry) => {
                let ghost old_entries = entries@;
                entries.push(entry);
                pos = pos + len as u64;
                proof {
                    assert(lens[i as int] == len);
                    assert(links[i as int] == chunks@[i as int].1@);
                    assert(spans_of(entries@) == spans_of(old_entries).push(span_of(entry)));
                    assert(spans_of(entries@) =~= spans_for(lens, links).subrange(0, i + 1));
                }
            }
        }
        i = i + 1;
    }
    proof {
        assert(spans_of(entries@) =~= spans_for(lens, links));
    }
    File::new(entries)
}

impl File {
    pub open spec fn spans(&self) -> Seq<Span> {
        spans_of(self.data@)
    }

    pub open spec fn wf(&self) -> bool {
        &&& tiles(self.spans())
        &&& self.size == covered(self.spans())
    }

    /// Builds a manifest from entries in any order: they are sorted by start
    /// and must then tile `[0, size)`.
    pub fn new(data: Vec<FileDataEntry>) -> (r: Result<File, ManifestError>)
        ensures
            r is Ok <==> can_tile(spans_of(data@)),
            r matches Ok(f) ==> {
                &&& f.wf()
                &&& f.spans().to_multiset() == spans_of(data@).to_multiset()
                &&& f.kind@ == file_kind()
            },
            r matches Err(e) ==> e == ManifestError::MalformedRanges,
    {
        let sorted = sort_by_range(data);
        let n = sorted.len();
        let size = if n == 0 {
            0
        } else {
            sorted[n - 1].bounds.1
        };
        let f = File { data: sorted, size, kind: vec![0x66, 0x69, 0x6c, 0x65] };
        assert(f.kind@ =~= file_kind());
        proof {
            if n > 0 {
                assert(f.spans()[n - 1] == span_of(f.data@[n - 1]));
            }
        }
        if !f.is_valid() {
            proof {
                lemma_sorted_not_tiling(spans_of(data@), f.spans());
            }
            return Err(ManifestError::MalformedRanges);
        }
        Ok(f)
    }
}

impl File {
    /// Total length of the file in bytes.
    pub fn size(&self) -> (r: u64)
        ensures
            r == self.size,
    {
        self.size
    }

    /// Whether the ranges tile the file and the size is where they end.
    pub fn is_valid(&self) -> (r: bool)
        ensures
            r == self.wf(),
    {
        let n = self.data.len();
        let mut i: usize = 0;
        while i < n
            invariant
                n == self.data@.len(),
                i <= n,
                n > 0 ==> self.spans()[0].0 == 0 || i == 0,
                forall|k: int| 0 <= k < i ==> #[trigger] self.spans()[k].0 <= self.spans()[k].1,
                forall|k: int| 0 <= k < i && k < n - 1 ==> #[trigger] self.spans()[k].1 == self.spans()[k + 1].0,
            decreases n - i,
        {
            assert(self.spans()[i as int] == span_of(self.data@[i as int]));
            let b = self.data[i].bounds;
            if i == 0 && b.0 != 0 {
                return false;
            }
            if b.0 > b.1 {
                assert(!(self.spans()[i as int].0 <= self.spans()[i as int].1));
                return false;
            }
            if i + 1 < n {
                assert(self.spans()[i + 1] == span_of(self.data@[i + 1]));
                if b.1 != self.data[i + 1].bounds.0 {
                    assert(self.spans()[i as int].1 != self.spans()[i + 1].0);
                    return false;
                }
            }
            i = i + 1;
        }
        if n == 0 {
            self.size == 0
        } else {
            assert(self.spans()[n - 1] == span_of(self.data@[n - 1]));
            self.size == self.data[n - 1].bounds.1
        }
    }

    /// Number of ranges in the manifest.
    pub fn len(&self) -> (r: usize)
        ensures
            r == self.data@.len(),
    {
        self.data.len()
    }

    /// The range that holds byte `pos`, found by binary search; `None` past
    /// the end of the file.
    pub fn find(&self, pos: u64) -> (r: Option<usize>)
        requires
            self.wf(),
        ensures
            r is None <==> pos >= self.size,
            r matches Some(k) ==> k < self.spans().len() && self.spans()[k as int].0 <= pos
                < self.spans()[k as int].1,
    {
        let n = self.data.len();
        if pos >= self.size {
            return None;
        }
        proof {
            assert(self.spans()[0] == span_of(self.data@[0]));
            assert(self.spans()[n - 1] == span_of(self.data@[n - 1]));
        }
        // The answer is the last range whose start is at most `pos`.
        let mut lo: usize = 0;
        let mut hi: usize = n;
        while hi - lo > 1
            invariant
                self.wf(),
                n == self.data@.len(),
                0 <= lo < hi <= n,
                self.spans()[lo as int].0 <= pos,
                hi < n ==> pos < self.spans()[hi as int].0,
            decreases hi - lo,
        {
            let mid = lo + (hi - lo) / 2;
            assert(self.spans()[mid as int] == span_of(self.data@[mid as int]));
            if self.data[mid].bounds.0 <= pos {
                lo = mid;
            } else {
                hi = mid;
            }
        }
        proof {
            assert(self.spans()[lo as int] == span_of(self.data@[lo as int]));
            if lo + 1 < n {
                assert(self.spans()[lo as int].1 == self.spans()[lo + 1].0);
            }
        }
        Some(lo)
    }
}

/// Strictly ordered by start.
pub open spec fn strictly_sorted(s: Seq<Span>) -> bool {
    forall|i: int, j: int| 0 <= i < j < s.len() ==> s[i].0 < s[j].0
}

pub(crate) proof fn lemma_tiles_step(s: Seq<Span>, i: int, j: int)
    requires
        tiles(s),
        0 <= i < j < s.len(),
    ensures
        s[i].1 <= s[j].0,
        range_le(s[i], s[j]),
    decreases j - i,
{
    assert(s[i].0 <= s[i].1);
    assert(s[i].1 == s[i + 1].0);
    if j > i + 1 {
        lemma_tiles_step(s, i + 1, j);
        assert(s[i + 1].0 <= s[i + 1].1);
    }
    assert(s[j].0 <= s[j].1);
}

pub(crate) proof fn lemma_tiles_sorted(s: Seq<Span>)
    requires
        tiles(s),
    ensures
        sorted_by_range(s),
{
    assert forall|i: int, j: int| 0 <= i < j < s.len() implies range_le(s[i], s[j]) by {
        lemma_tiles_step(s, i, j);
    }
}

/// The two hold the same ranges at each place (links may differ).
pub open spec fn same_ranges(s: Seq<Span>, t: Seq<Span>) -> bool {
    s.len() == t.len() && forall|i: int| 0 <= i < s.len() ==> s[i].0 == t[i].0 && s[i].1 == t[i].1
}

/// Two arrangements of the same spans, both ordered by range, hold the same
/// ranges at each place.
proof fn lemma_sorted_ranges_unique(s: Seq<Span>, t: Seq<Span>)
    requires
        sorted_by_range(s),
        sorted_by_range(t),
        s.to_multiset() == t.to_multiset(),
    ensures
        same_ranges(s, t),
    decreases s.len(),
{
    vstd::seq_lib::to_multiset_len(s);
    vstd::seq_lib::to_multiset_len(t);
    if s.len() > 0 {
        vstd::seq_lib::to_multiset_contains(t, t[0]);
        vstd::seq_lib::to_multiset_contains(s, t[0]);
        vstd::seq_lib::to_multiset_contains(s, s[0]);
        vstd::seq_lib::to_multiset_contains(t, s[0]);
        assert(t.contains(t[0]));
        assert(s.contains(s[0]));
        let j = choose|j: int| 0 <= j < s.len() && s[j] == t[0];
        let k = choose|k: int| 0 <= k < t.len() && t[k] == s[0];
        if j > 0 {
            assert(range_le(s[0], s[j]));
        }
        if k > 0 {
            assert(range_le(t[0], t[k]));
        }
        assert(s[0].0 == t[0].0 && s[0].1 == t[0].1);
        let tr = t.remove(k);
        assert(s.remove(0) == s.drop_first());
        vstd::seq_lib::to_multiset_remove(s, 0);
        vstd::seq_lib::to_multiset_remove(t, k);
        assert forall|a: int, b: int| 0 <= a < b < tr.len() implies range_le(tr[a], tr[b]) by {
            let a2 = if a < k { a } else { a + 1 };
            let b2 = if b < k { b } else { b + 1 };
            assert(tr[a] == t[a2] && tr[b] == t[b2]);
        }
        lemma_sorted_ranges_unique(s.drop_first(), tr);
        assert forall|i: int| 0 <= i < s.len() implies s[i].0 == t[i].0 && s[i].1 == t[i].1 by {
            if i > 0 {
                assert(s[i] == s.drop_first()[i - 1]);
                if i - 1 < k {
                    assert(tr[i - 1] == t[i - 1]);
                    assert(range_le(t[0], t[i - 1]) || i - 1 == 0);
                    assert(range_le(t[i - 1], t[i]));
                    if i < k {
                        assert(range_le(t[i], t[k]));
                    }
                } else {
                    assert(tr[i - 1] == t[i]);
                }
            }
        }
    }
}

/// A strictly ordered arrangement is the only ordered one.
pub(crate) proof fn lemma_sorted_unique(s: Seq<Span>, t: Seq<Span>)
    requires
        strictly_sorted(s),
        sorted_by_start(t),
        s.to_multiset() == t.to_multiset(),
    ensures
        s == t,
    decreases s.len(),
{
    vstd::seq_lib::to_multiset_len(s);
    vstd::seq_lib::to_multiset_len(t);
    assert(s.len() == t.len());
    if s.len() > 0 {
        assert(t.contains(t[0]));
        vstd::seq_lib::to_multiset_contains(t, t[0]);
        vstd::seq_lib::to_multiset_contains(s, t[0]);
        vstd::seq_lib::to_multiset_contains(s, s[0]);
        vstd::seq_lib::to_multiset_contains(t, s[0]);
        assert(s.contains(t[0]));
        let j = choose|j: int| 0 <= j < s.len() && s[j] == t[0];
        assert(s.contains(s[0]));
        assert(t.contains(s[0]));
        let k = choose|k: int| 0 <= k < t.len() && t[k] == s[0];
        assert(t[0].0 <= t[k].0);
        assert(j == 0);
        assert(s.remove(0) == s.drop_first());
        assert(t.remove(0) == t.drop_first());
        vstd::seq_lib::to_multiset_remove(s, 0);
        vstd::seq_lib::to_multiset_remove(t, 0);
        lemma_sorted_unique(s.drop_first(), t.drop_first());
        assert(s == seq![s[0]] + s.drop_first());
        assert(t == seq![t[0]] + t.drop_first());
    }
}

/// An arrangement ordered by range that does not tile shows that none does.
proof fn lemma_sorted_not_tiling(orig: Seq<Span>, sorted: Seq<Span>)
    requires
        sorted_by_range(sorted),
        sorted.to_multiset() == orig.to_multiset(),
        !tiles(sorted),
    ensures
        !can_tile(orig),
{
    if can_tile(orig) {
        let t = choose|t: Seq<Span>| t.to_multiset() == orig.to_multiset() && tiles(t);
        lemma_tiles_sorted(t);
        lemma_sorted_ranges_unique(t, sorted);
        assert forall|i: int| 0 <= i < sorted.len() implies #[trigger] sorted[i].0 <= sorted[i].1 by {
            assert(t[i].0 <= t[i].1);
        }
        assert forall|i: int| 0 <= i < sorted.len() - 1 implies #[trigger] sorted[i].1 == sorted[i + 1].0 by {
            assert(t[i].1 == t[i + 1].0);
        }
        if sorted.len() > 0 {
            assert(t[0].0 == 0);
        }
    }
}

/// Orders entries by their range, by start and then by end (selection of the
/// least).
fn sort_by_range(data: Vec<FileDataEntry>) -> (r: Vec<FileDataEntry>)
    ensures
        sorted_by_range(spans_of(r@)),
        spans_of(r@).to_multiset() == spans_of(data@).to_multiset(),
{
    let mut rest = data;
    let mut out: Vec<FileDataEntry> = Vec::new();
    while rest.len() > 0
        invariant
            sorted_by_range(spans_of(out@)),
            forall|i: int, j: int|
                0 <= i < out@.len() && 0 <= j < rest@.len() ==> range_le(span_of(out@[i]), span_of(rest@[j])),
            spans_of(out@).to_multiset().add(spans_of(rest@).to_multiset())
                == spans_of(data@).to_multiset(),
        decreases rest.len(),
    {
        let mut m: usize = 0;
        let mut j: usize = 1;
        while j < rest.len()
            invariant
                0 <= m < rest@.len(),
                1 <= j <= rest@.len(),
                forall|k: int| 0 <= k < j ==> range_le(span_of(rest@[m as int]), #[trigger] span_of(rest@[k])),
            decreases rest.len() - j,
        {
            let (a, b) = (rest[j].bounds, rest[m].bounds);
            if a.0 < b.0 || (a.0 == b.0 && a.1 < b.1) {
                m = j;
            }
            j = j + 1;
        }
        let ghost old_rest = rest@;
        let ghost old_out = out@;
        let e = rest.remove(m);
        proof {
            assert(spans_of(rest@) == spans_of(old_rest).remove(m as int));
            vstd::seq_lib::to_multiset_remove(spans_of(old_rest), m as int);
        }
        out.push(e);
        proof {
            assert(spans_of(out@) == spans_of(old_out).push(span_of(e)));
            assert(spans_of(old_rest).contains(span_of(e)));
            assert(spans_of(out@).to_multiset().add(spans_of(rest@).to_multiset())
                =~= spans_of(old_out).to_multiset().add(spans_of(old_rest).to_multiset()));
        }
    }
    assert(spans_of(rest@) =~= Seq::<Span>::empty());
    assert(spans_of(out@).to_multiset().add(spans_of(rest@).to_multiset()) =~= spans_of(out@).to_multiset());
    out
}

} // verus!
