use vstd::prelude::*;
use crate::address::Address;
use crate::codec::{decodable, manifest_bytes, Error};
use crate::manifest::{span_of, File};

verus! {

/// Why a read could not be served.
#[derive(Clone, Copy, Debug, PartialEq, Eq)]
pub enum ReadError {
    /// The block store could not deliver a block.
    Fetch,
    /// The manifest block does not hold a valid manifest.
    Decode(Error),
    /// A chunk block does not have the length of its range.
    ChunkLength,
}

/// Where the reader stands with its manifest.
#[derive(Debug)]
pub enum Phase {
    /// Nothing fetched yet.
    Unresolved,
    /// The manifest block has been asked for and not yet handed in.
    Resolving,
    /// The manifest is known.
    Ready(File),
    /// Resolution failed; every read reports this error.
    Failed(ReadError),
}

/// What a read asks of its caller, or hands back.
#[derive(Debug)]
pub enum ReadStep {
    /// Fetch this block and hand it to `manifest_fetched`.
    FetchManifest(Address),
    /// The manifest is being fetched already; read again once it is in.
    Pending,
    /// Fetch the block of this range and hand it to `chunk_fetched`.
    FetchChunk(usize, Address),
    /// These bytes, from the position on; the position moved past them.
    Data(Vec<u8>),
    /// The position is at or past the end of the file.
    Eof,
    /// Resolution of the manifest failed.
    Failed(ReadError),
}

/// Random-access reader of a file stored as a manifest and its chunks. The
/// block store stays with the caller: the reader says which block it needs,
/// and the caller hands the block back.
#[derive(Debug)]
pub struct FileReader {
    pub root: Address,
    pub phase: Phase,
    pub pos: u64,
    /// The one buffered chunk: the index of its range and its bytes.
    pub buffer: Option<(usize, Vec<u8>)>,
}

impl FileReader {
    /// The buffered chunk belongs to a range of the manifest and has its length.
    pub open spec fn wf(&self) -> bool {
        match self.phase {
            Phase::Ready(f) => {
                &&& f.wf()
                &&& (self.buffer matches Some((k, b)) ==> {
                    &&& k < f.spans().len()
                    &&& b@.len() == f.spans()[k as int].1 - f.spans()[k as int].0
                })
            },
            _ => self.buffer is None,
        }
    }

    /// A reader of the file whose manifest is stored under `root`; nothing is
    /// fetched until the first read.
    pub fn new(root: Address) -> (r: FileReader)
        ensures
            r.wf(),
            r.root@ == root@,
            r.phase is Unresolved,
            r.pos == 0,
    {
        FileReader { root, phase: Phase::Unresolved, pos: 0, buffer: None }
    }

    /// The current position.
    pub fn position(&self) -> (r: u64)
        ensures
            r == self.pos,
    {
        self.pos
    }

    /// Reads up to `max` bytes at the current position, or says which block
    /// is needed first.
    pub fn read(&mut self, max: usize) -> (r: ReadStep)
        requires
            old(self).wf(),
        ensures
            final(self).wf(),
            final(self).root@ == old(self).root@,
            match old(self).phase {
                Phase::Unresolved => r matches ReadStep::FetchManifest(a) && a@ == old(self).root@
                    && final(self).phase is Resolving && final(self).pos == old(self).pos,
                Phase::Resolving => r is Pending && *final(self) == *old(self),
                Phase::Failed(e) => r == ReadStep::Failed(e) && *final(self) == *old(self),
                Phase::Ready(f) => {
                    let pos = old(self).pos;
                    if pos >= f.size {
                        r is Eof && *final(self) == *old(self)
                    } else {
                        exists|k: int| {
                            &&& 0 <= k < f.spans().len()
                            &&& #[trigger] f.spans()[k].0 <= pos < f.spans()[k].1
                            &&& match old(self).buffer {
                                Some((j, b)) if j == k => {
                                    let from = pos - f.spans()[k].0;
                                    let n = if max < f.spans()[k].1 - pos { max as int } else { f.spans()[k].1 - pos };
                                    &&& r matches ReadStep::Data(out) && out@ == b@.subrange(from, from + n)
                                    &&& final(self).pos == pos + n
                                    &&& final(self).phase == old(self).phase
                                    &&& final(self).buffer == old(self).buffer
                                },
                                _ => {
                                    &&& r matches ReadStep::FetchChunk(j, a) && j == k && a@ == f.spans()[k].2
                                    &&& *final(self) == *old(self)
                                },
                            }
                        }
                    }
                },
            },
    {
        let (k, start, end, link) = match &self.phase {
            Phase::Unresolved => {
                self.phase = Phase::Resolving;
                return ReadStep::FetchManifest(self.root.duplicate());
            },
            Phase::Resolving => {
                return ReadStep::Pending;
            },
            Phase::Failed(e) => {
                return ReadStep::Failed(*e);
            },
            Phase::Ready(f) => {
                let k = match f.find(self.pos) {
                    None => {
                        return ReadStep::Eof;
                    },
                    Some(k) => k,
                };
                assert(f.spans()[k as int] == span_of(f.data@[k as int]));
                (k, f.data[k].bounds.0, f.data[k].bounds.1, f.data[k].link.duplicate())
            },
        };
        let hit = match &self.buffer {
            Some((j, _)) => *j == k,
            None => false,
        };
        if !hit {
            return ReadStep::FetchChunk(k, link);
        }
        let out = match &self.buffer {
            Some((_, b)) => {
                // The chunk is held in memory, so its length bounds the offsets into it.
                let len = b.len();
                assert(len == end - start);
                let from = (self.pos - start) as usize;
                let avail = end - self.pos;
                let n: usize = if (max as u64) < avail {
                    max
                } else {
                    avail as usize
                };
                copy_out(b, from, from + n)
            },
            // Not reached: `hit` holds.
            None => Vec::new(),
        };
        self.pos = self.pos + out.len() as u64;
        ReadStep::Data(out)
    }

    /// Hands in the manifest block asked for by `FetchManifest`, or `None`
    /// where it could not be fetched. Failure is final for this reader.
    pub fn manifest_fetched(&mut self, fetched: Option<Vec<u8>>)
        requires
            old(self).wf(),
        ensures
            final(self).wf(),
            final(self).root@ == old(self).root@,
            final(self).pos == old(self).pos,
            !(old(self).phase is Resolving) ==> *final(self) == *old(self),
            old(self).phase is Resolving ==> match fetched {
                None => final(self).phase == Phase::Failed(ReadError::Fetch),
                Some(b) => if decodable(b@) {
                    &&& final(self).phase matches Phase::Ready(f) && f.wf() && manifest_bytes(f.spans(), f.size, f.kind@)
                        == b@
                    &&& final(self).buffer is None
                } else {
                    final(self).phase matches Phase::Failed(ReadError::Decode(_))
                },
            },
    {
        if !matches!(self.phase, Phase::Resolving) {
            return;
        }
        match fetched {
            None => {
                self.phase = Phase::Failed(ReadError::Fetch);
            },
            Some(b) => match File::decode(b.as_slice()) {
                Ok(f) => {
                    self.phase = Phase::Ready(f);
                },
                Err(e) => {
                    self.phase = Phase::Failed(ReadError::Decode(e));
                },
            },
        }
    }

    /// Hands in the block of range `index` asked for by `FetchChunk`, or
    /// `None` where it could not be fetched. A failed fetch is reported and
    /// not remembered, so the read can be tried again.
    pub fn chunk_fetched(&mut self, index: usize, fetched: Option<Vec<u8>>) -> (r: Result<(), ReadError>)
        requires
            old(self).wf(),
        ensures
            final(self).wf(),
            final(self).root@ == old(self).root@,
            final(self).pos == old(self).pos,
            final(self).phase == old(self).phase,
            r is Err ==> *final(self) == *old(self),
            match old(self).phase {
                Phase::Ready(f) => match fetched {
                    None => r == Err::<(), ReadError>(ReadError::Fetch),
                    Some(b) => if index < f.spans().len() && b@.len() == f.spans()[index as int].1
                        - f.spans()[index as int].0 {
                        r is Ok && (final(self).buffer matches Some((j, c)) && j == index && c@ == b@)
                    } else {
                        r == Err::<(), ReadError>(ReadError::ChunkLength)
                    },
                },
                _ => r == Err::<(), ReadError>(ReadError::Fetch),
            },
    {
        let b = match fetched {
            None => {
                return Err(ReadError::Fetch);
            },
            Some(b) => b,
        };
        let fits = match &self.phase {
            Phase::Ready(f) => {
                if index < f.data.len() {
                    assert(f.spans()[index as int] == span_of(f.data@[index as int]));
                    let e = &f.data[index];
                    e.bounds.1 >= e.bounds.0 && b.len() as u64 == e.bounds.1 - e.bounds.0
                } else {
                    false
                }
            },
            _ => {
                return Err(ReadError::Fetch);
            },
        };
        if !fits {
            return Err(ReadError::ChunkLength);
        }
        self.buffer = Some((index, b));
        Ok(())
    }

    /// Moves to `pos`. The buffered chunk stays where it still holds `pos`.
    pub fn seek(&mut self, pos: u64)
        requires
            old(self).wf(),
        ensures
            final(self).wf(),
            final(self).root@ == old(self).root@,
            final(self).pos == pos,
            final(self).phase == old(self).phase,
            match (old(self).phase, old(self).buffer) {
                (Phase::Ready(f), Some((k, b))) => if f.spans()[k as int].0 <= pos < f.spans()[k as int].1 {
                    final(self).buffer == old(self).buffer
                } else {
                    final(self).buffer is None
                },
                _ => final(self).buffer == old(self).buffer,
            },
    {
        let keep = match (&self.phase, &self.buffer) {
            (Phase::Ready(f), Some((k, _))) => {
                assert(f.spans()[*k as int] == span_of(f.data@[*k as int]));
                f.data[*k].bounds.0 <= pos && pos < f.data[*k].bounds.1
            },
            _ => true,
        };
        if !keep {
            self.buffer = None;
        }
        self.pos = pos;
    }
}

/// The bytes `b[from..to]`.
fn copy_out(b: &Vec<u8>, from: usize, to: usize) -> (r: Vec<u8>)
    requires
        from <= to <= b@.len(),
    ensures
        r@ == b@.subrange(from as int, to as int),
{
    let mut v: Vec<u8> = Vec::new();
    let mut i: usize = from;
    while i < to
        invariant
            from <= i <= to <= b@.len(),
            v@ == b@.subrange(from as int, i as int),
        decreases to - i,
    {
        v.push(b[i]);
        i = i + 1;
        assert(v@ =~= b@.subrange(from as int, i as int));
    }
    v
}

} // verus!
