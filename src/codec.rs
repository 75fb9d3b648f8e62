use vstd::prelude::*;
use crate::address::Address;
use crate::manifest::{covered, span_of, spans_of, tiles, File, FileDataBounds, FileDataEntry, Span};

verus! {

/// `x` as `n` bytes, most significant first (the low `n` bytes of `x`).
pub open spec fn be_bytes(x: nat, n: nat) -> Seq<u8>
    decreases n,
{
    if n == 0 {
        Seq::empty()
    } else {
        be_bytes(x / 256, (n - 1) as nat).push((x % 256) as u8)
    }
}

/// The number that bytes stand for, most significant first.
pub open spec fn be_value(s: Seq<u8>) -> nat
    decreases s.len(),
{
    if s.len() == 0 {
        0
    } else {
        be_value(s.drop_last()) * 256 + s.last() as nat
    }
}

pub open spec fn pow256(n: nat) -> nat
    decreases n,
{
    if n == 0 {
        1
    } else {
        256 * pow256((n - 1) as nat)
    }
}

/// The shortest head of a data item of major type `major` with argument `arg`.
pub open spec fn head(major: u8, arg: u64) -> Seq<u8> {
    let m = (major as int) * 32;
    if arg < 24 {
        seq![(m + arg) as u8]
    } else if arg < 0x100 {
        seq![(m + 24) as u8] + be_bytes(arg as nat, 1)
    } else if arg < 0x1_0000 {
        seq![(m + 25) as u8] + be_bytes(arg as nat, 2)
    } else if arg < 0x1_0000_0000 {
        seq![(m + 26) as u8] + be_bytes(arg as nat, 4)
    } else {
        seq![(m + 27) as u8] + be_bytes(arg as nat, 8)
    }
}

proof fn lemma_pow256(n: nat)
    ensures
        n == 1 ==> pow256(n) == 0x100,
        n == 2 ==> pow256(n) == 0x1_0000,
        n == 4 ==> pow256(n) == 0x1_0000_0000,
        n == 8 ==> pow256(n) == 0x1_0000_0000_0000_0000,
        pow256(n) >= 1,
    decreases n,
{
    reveal_with_fuel(pow256, 9);
    if n > 0 {
        lemma_pow256((n - 1) as nat);
    }
}

proof fn lemma_be_len(x: nat, n: nat)
    ensures
        be_bytes(x, n).len() == n,
    decreases n,
{
    if n > 0 {
        lemma_be_len(x / 256, (n - 1) as nat);
    }
}

/// Reading back the bytes of a number that fits gives the number.
proof fn lemma_be_value_of_bytes(x: nat, n: nat)
    requires
        x < pow256(n),
    ensures
        be_value(be_bytes(x, n)) == x,
    decreases n,
{
    if n > 0 {
        let q = x / 256;
        let p = pow256((n - 1) as nat);
        assert(q < p) by (nonlinear_arith)
            requires
                x < 256 * p,
                q == x / 256,
        ;
        lemma_be_value_of_bytes(q, (n - 1) as nat);
        let s = be_bytes(x, n);
        assert(s.drop_last() == be_bytes(q, (n - 1) as nat));
        assert(q * 256 + x % 256 == x) by (nonlinear_arith)
            requires
                q == x / 256,
        ;
    }
}

/// Writing out the number that bytes stand for gives the bytes back.
proof fn lemma_bytes_of_be_value(s: Seq<u8>)
    ensures
        be_bytes(be_value(s), s.len()) == s,
        be_value(s) < pow256(s.len()),
    decreases s.len(),
{
    if s.len() > 0 {
        let t = s.drop_last();
        let c = s.last();
        lemma_bytes_of_be_value(t);
        let v = be_value(t) * 256 + c;
        assert(v / 256 == be_value(t) && v % 256 == c as nat) by (nonlinear_arith)
            requires
                v == be_value(t) * 256 + c,
                0 <= c < 256,
        ;
        assert(s == t.push(c));
        assert(v < 256 * pow256(t.len())) by (nonlinear_arith)
            requires
                v == be_value(t) * 256 + c,
                0 <= c < 256,
                be_value(t) < pow256(t.len()),
        ;
    }
}

/// Appends `x` as `n` bytes, most significant first.
fn push_be(out: &mut Vec<u8>, x: u64, n: u8)
    ensures
        final(out)@ == old(out)@ + be_bytes(x as nat, n as nat),
    decreases n,
{
    if n > 0 {
        push_be(out, x / 256, n - 1);
        out.push((x % 256) as u8);
        assert(be_bytes(x as nat, n as nat) == be_bytes((x / 256) as nat, (n - 1) as nat).push(
            (x % 256) as u8,
        ));
    }
}

/// Appends the shortest head of major type `major` with argument `arg`.
pub(crate) fn push_head(out: &mut Vec<u8>, major: u8, arg: u64)
    requires
        major < 8,
    ensures
        final(out)@ == old(out)@ + head(major, arg),
{
    let m: u8 = major * 32;
    if arg < 24 {
        out.push(m + arg as u8);
    } else if arg < 0x100 {
        out.push(m + 24);
        push_be(out, arg, 1);
    } else if arg < 0x1_0000 {
        out.push(m + 25);
        push_be(out, arg, 2);
    } else if arg < 0x1_0000_0000 {
        out.push(m + 26);
        push_be(out, arg, 4);
    } else {
        out.push(m + 27);
        push_be(out, arg, 8);
    }
    assert(final(out)@ =~= old(out)@ + head(major, arg));
}

/// Appends bytes.
pub(crate) fn push_bytes(out: &mut Vec<u8>, b: &[u8])
    ensures
        final(out)@ == old(out)@ + b@,
{
    let ghost start = out@;
    let mut i: usize = 0;
    while i < b.len()
        invariant
            i <= b@.len(),
            out@ == start + b@.subrange(0, i as int),
        decreases b@.len() - i,
    {
        out.push(b[i]);
        i = i + 1;
        assert(out@ =~= start + b@.subrange(0, i as int));
    }
    assert(b@.subrange(0, i as int) =~= b@);
}

/// Why bytes could not be read as a manifest.
#[derive(Clone, Copy, Debug, PartialEq, Eq)]
pub enum Error {
    /// The bytes end inside a data item.
    Eof,
    /// A head uses a reserved or non-shortest form, or a fixed part differs.
    Syntax,
    /// An integer head of another major type.
    ExpectedInteger,
    /// A byte-string head of another major type.
    ExpectedBytes,
    /// A text head of another major type.
    ExpectedString,
    /// An array head of another major type.
    ExpectedArray,
    /// A link is not a tagged content identifier.
    ExpectedLink,
    /// The ranges read do not tile the file.
    MalformedRanges,
    /// Bytes follow the manifest.
    TrailingCharacters,
}

/// The bytes at `pos` begin with `p`.
pub open spec fn starts_with_at(b: Seq<u8>, pos: int, p: Seq<u8>) -> bool {
    pos + p.len() <= b.len() && b.subrange(pos, pos + p.len()) == p
}

/// The error for a head of the wrong major type.
fn expected(major: u8) -> Error {
    if major == 0 {
        Error::ExpectedInteger
    } else if major == 2 {
        Error::ExpectedBytes
    } else if major == 3 {
        Error::ExpectedString
    } else if major == 4 {
        Error::ExpectedArray
    } else {
        Error::Syntax
    }
}

/// Reads `n` bytes at `pos` as a number, most significant first.
fn read_be(b: &[u8], pos: usize, n: usize) -> (r: u64)
    requires
        n <= 8,
        pos + n <= b@.len(),
    ensures
        r as nat == be_value(b@.subrange(pos as int, pos + n)),
{
    let mut acc: u64 = 0;
    let mut i: usize = 0;
    let len = b.len();
    proof {
        lemma_pow256(8);
    }
    while i < n
        invariant
            len == b@.len(),
            n <= 8,
            pos + n <= b@.len(),
            i <= n,
            acc as nat == be_value(b@.subrange(pos as int, pos + i)),
            pow256(8) == 0x1_0000_0000_0000_0000,
        decreases n - i,
    {
        let ghost s = b@.subrange(pos as int, pos + i + 1);
        proof {
            lemma_bytes_of_be_value(b@.subrange(pos as int, pos + i));
            lemma_pow_mono(i as nat, 7);
            assert(s.drop_last() == b@.subrange(pos as int, pos + i));
            assert(acc * 256 + b@[pos + i] < 0x1_0000_0000_0000_0000) by (nonlinear_arith)
                requires
                    acc < pow256(i as nat),
                    pow256(i as nat) <= pow256(7),
                    256 * pow256(7) == 0x1_0000_0000_0000_0000,
                    b@[pos + i] < 256,
            ;
        }
        let c = b[pos + i];
        assert(acc * 256 + (c as int) < 0x1_0000_0000_0000_0000);
        acc = acc * 256 + c as u64;
        i = i + 1;
    }
    acc
}

proof fn lemma_pow_mono(i: nat, j: nat)
    requires
        i <= j,
    ensures
        pow256(i) <= pow256(j),
    decreases j,
{
    if i < j {
        lemma_pow_mono(i, (j - 1) as nat);
        lemma_pow256((j - 1) as nat);
    }
}

/// Reads a head of major type `major` at `pos`: its argument and the position
/// after it. Only the shortest form is accepted, so a head reads back exactly
/// where the bytes hold `head(major, v)`.
pub(crate) fn read_head(b: &[u8], pos: usize, major: u8) -> (r: Result<(u64, usize), Error>)
    requires
        pos <= b@.len(),
        major < 8,
    ensures
        r matches Ok((v, p)) ==> p == pos + head(major, v).len() && starts_with_at(b@, pos as int, head(major, v)),
        forall|v: u64| #[trigger] starts_with_at(b@, pos as int, head(major, v)) ==> r == Ok::<(u64, usize), Error>(
            (v, (pos + head(major, v).len()) as usize),
        ),
{
    proof {
        lemma_pow256(1);
        lemma_pow256(2);
        lemma_pow256(4);
        lemma_pow256(8);
        assert forall|v: u64| #[trigger] head(major, v).len() >= 1 && head(major, v)[0] / 32 == major && (
            head(major, v)[0] % 32 < 24 <==> v < 24) && (v < 24 ==> head(major, v)[0] % 32 == v) && (
            head(major, v)[0] % 32 == 24 <==> 24 <= v < 0x100) && (head(major, v)[0] % 32 == 25 <==> 0x100
            <= v < 0x1_0000) && (head(major, v)[0] % 32 == 26 <==> 0x1_0000 <= v < 0x1_0000_0000) && (head(
            major,
            v,
        )[0] % 32 == 27 <==> 0x1_0000_0000 <= v) && (v < 24 ==> head(major, v).len() == 1) && (24 <= v
            < 0x100 ==> head(major, v).len() == 2) && (0x100 <= v < 0x1_0000 ==> head(major, v).len() == 3) && (
        0x1_0000 <= v < 0x1_0000_0000 ==> head(major, v).len() == 5) && (0x1_0000_0000 <= v ==> head(
            major,
            v,
        ).len() == 9) by {
            lemma_be_len(v as nat, 1);
            lemma_be_len(v as nat, 2);
            lemma_be_len(v as nat, 4);
            lemma_be_len(v as nat, 8);
        }
    }
    if pos >= b.len() {
        return Err(Error::Eof);
    }
    let ib = b[pos];
    if ib / 32 != major {
        return Err(expected(major));
    }
    let info = ib % 32;
    if info < 24 {
        proof {
            assert(b@.subrange(pos as int, pos + 1) =~= head(major, info as u64));
        }
        return Ok((info as u64, pos + 1));
    }
    let n: usize = if info == 24 {
        1
    } else if info == 25 {
        2
    } else if info == 26 {
        4
    } else if info == 27 {
        8
    } else {
        return Err(Error::Syntax);
    };
    if b.len() - pos - 1 < n {
        proof {
            assert forall|w: u64| #[trigger] starts_with_at(b@, pos as int, head(major, w)) implies false by {
                assert(b@[pos as int] == head(major, w)[0]);
            }
        }
        return Err(Error::Eof);
    }
    let v = read_be(b, pos + 1, n);
    let least: u64 = if n == 1 {
        24
    } else if n == 2 {
        0x100
    } else if n == 4 {
        0x1_0000
    } else {
        0x1_0000_0000
    };
    let ghost digits = b@.subrange(pos + 1, pos + 1 + n);
    proof {
        lemma_bytes_of_be_value(digits);
        lemma_be_len(v as nat, n as nat);
        assert forall|w: u64| #[trigger] starts_with_at(b@, pos as int, head(major, w)) implies w == v by {
            let hw = head(major, w);
            assert(b@[pos as int] == hw[0]);
            lemma_be_len(w as nat, n as nat);
            assert(hw.subrange(1, hw.len() as int) == be_bytes(w as nat, n as nat));
            assert(b@.subrange(pos as int, pos + hw.len()).subrange(1, hw.len() as int) == digits);
            lemma_be_value_of_bytes(w as nat, n as nat);
        }
    }
    if v < least {
        return Err(Error::Syntax);
    }
    proof {
        assert(b@.subrange(pos as int, pos + 1 + n) =~= seq![ib] + digits);
        assert(head(major, v) =~= seq![ib] + be_bytes(v as nat, n as nat));
    }
    Ok((v, pos + 1 + n))
}

/// A map of two pairs, the key "link", and tag 42 (a content identifier).
pub open spec fn entry_open() -> Seq<u8> {
    seq![0xa2u8, 0x64, 0x6c, 0x69, 0x6e, 0x6b, 0xd8, 0x2a]
}

/// The key "bounds" and an array of two.
pub open spec fn bounds_open() -> Seq<u8> {
    seq![0x66u8, 0x62, 0x6f, 0x75, 0x6e, 0x64, 0x73, 0x82]
}

/// A map of three pairs and the key "data".
pub open spec fn manifest_open() -> Seq<u8> {
    seq![0xa3u8, 0x64, 0x64, 0x61, 0x74, 0x61]
}

/// The key "size".
pub open spec fn size_key() -> Seq<u8> {
    seq![0x64u8, 0x73, 0x69, 0x7a, 0x65]
}

/// The key "type".
pub open spec fn type_key() -> Seq<u8> {
    seq![0x64u8, 0x74, 0x79, 0x70, 0x65]
}

/// One entry: `{"link": CID(address), "bounds": [start, end]}`, the address
/// as a byte string led by a zero byte.
pub open spec fn entry_item(e: Span) -> Seq<u8> {
    entry_open() + (head(2, (e.2.len() + 1) as u64) + (seq![0u8] + (e.2 + (bounds_open() + (head(0, e.0)
        + head(0, e.1))))))
}

/// The entries, one after another.
pub open spec fn entries_items(s: Seq<Span>) -> Seq<u8>
    decreases s.len(),
{
    if s.len() == 0 {
        Seq::empty()
    } else {
        entry_item(s[0]) + entries_items(s.drop_first())
    }
}

/// What follows the entries: the size and the kind, as text.
pub open spec fn manifest_tail(size: u64, kind: Seq<u8>) -> Seq<u8> {
    size_key() + (head(0, size) + (type_key() + (head(3, kind.len() as u64) + kind)))
}

/// The canonical encoding of a manifest:
/// `{"data": [entries], "size": size, "type": kind}`, keys in this order.
pub open spec fn manifest_bytes(s: Seq<Span>, size: u64, kind: Seq<u8>) -> Seq<u8> {
    manifest_open() + (head(4, s.len() as u64) + (entries_items(s) + manifest_tail(size, kind)))
}

/// Every count in the encoding fits its 64-bit head.
pub open spec fn spans_fit(s: Seq<Span>) -> bool {
    s.len() <= u64::MAX && forall|i: int| 0 <= i < s.len() ==> #[trigger] s[i].2.len() < u64::MAX
}

/// The bytes are the encoding of some valid manifest.
pub open spec fn decodable(b: Seq<u8>) -> bool {
    exists|s: Seq<Span>, kind: Seq<u8>|
        tiles(s) && spans_fit(s) && kind.len() <= u64::MAX && #[trigger] manifest_bytes(s, covered(s), kind) == b
}

pub(crate) proof fn lemma_starts_concat(b: Seq<u8>, pos: int, x: Seq<u8>, y: Seq<u8>)
    requires
        0 <= pos,
    ensures
        starts_with_at(b, pos, x + y) <==> (starts_with_at(b, pos, x) && starts_with_at(b, pos + x.len(), y)),
{
    let whole = b.subrange(pos, pos + x.len() + y.len());
    if starts_with_at(b, pos, x + y) {
        assert(whole == x + y);
        assert(b.subrange(pos, pos + x.len()) =~= whole.subrange(0, x.len() as int));
        assert(whole.subrange(0, x.len() as int) =~= x);
        assert(b.subrange(pos + x.len(), pos + x.len() + y.len()) =~= whole.subrange(
            x.len() as int,
            (x.len() + y.len()) as int,
        ));
        assert(whole.subrange(x.len() as int, (x.len() + y.len()) as int) =~= y);
    }
    if starts_with_at(b, pos, x) && starts_with_at(b, pos + x.len(), y) {
        assert(whole =~= b.subrange(pos, pos + x.len()) + b.subrange(
            pos + x.len(),
            pos + x.len() + y.len(),
        ));
        assert(whole =~= x + y);
    }
}

proof fn lemma_entries_push(s: Seq<Span>, e: Span)
    ensures
        entries_items(s.push(e)) == entries_items(s) + entry_item(e),
    decreases s.len(),
{
    if s.len() == 0 {
        assert(s.push(e).drop_first() =~= Seq::<Span>::empty());
        assert(entries_items(Seq::<Span>::empty()) == Seq::<u8>::empty());
        assert(entries_items(s.push(e)) =~= entry_item(e));
    } else {
        lemma_entries_push(s.drop_first(), e);
        assert(s.push(e).drop_first() =~= s.drop_first().push(e));
        assert(entries_items(s.push(e)) =~= entries_items(s) + entry_item(e));
    }
}

/// Checks that the bytes at `pos` are `lit`; the position after them.
pub(crate) fn expect(b: &[u8], pos: usize, lit: &[u8]) -> (r: Result<usize, Error>)
    requires
        pos <= b@.len(),
    ensures
        r is Ok <==> starts_with_at(b@, pos as int, lit@),
        r matches Ok(p) ==> p == pos + lit@.len(),
{
    let n = lit.len();
    if b.len() - pos < n {
        return Err(Error::Eof);
    }
    let mut i: usize = 0;
    let len = b.len();
    while i < n
        invariant
            len == b@.len(),
            n == lit@.len(),
            pos + n <= b@.len(),
            i <= n,
            b@.subrange(pos as int, pos + i) == lit@.subrange(0, i as int),
        decreases n - i,
    {
        if b[pos + i] != lit[i] {
            proof {
                assert(b@.subrange(pos as int, pos + n)[i as int] != lit@[i as int]);
            }
            return Err(Error::Syntax);
        }
        assert(b@.subrange(pos as int, pos + i + 1) =~= b@.subrange(pos as int, pos + i).push(b@[pos + i]));
        assert(lit@.subrange(0, i + 1) =~= lit@.subrange(0, i as int).push(lit@[i as int]));
        i = i + 1;
    }
    assert(lit@.subrange(0, n as int) =~= lit@);
    Ok(pos + n)
}

/// The bytes `b[from..to]`.
pub(crate) fn copy_range(b: &[u8], from: usize, to: usize) -> (r: Vec<u8>)
    requires
        from <= to <= b@.len(),
    ensures
        r@ == b@.subrange(from as int, to as int),
{
    let mut v: Vec<u8> = Vec::new();
    let mut i: usize = from;
    while i < to
        invariant
            from <= i <= to <= b@.len(),
            v@ == b@.subrange(from as int, i as int),
        decreases to - i,
    {
        v.push(b[i]);
        i = i + 1;
        assert(v@ =~= b@.subrange(from as int, i as int));
    }
    v
}

/// The pieces of an entry: where `entry_item` starts, the bytes from each
/// piece on are the rest of the entry.
proof fn lemma_entry_pieces(b: Seq<u8>, pos: int, sp: Span)
    requires
        0 <= pos,
    ensures
        ({
            let h2 = head(2, (sp.2.len() + 1) as u64);
            let at1 = pos + 8;
            let at2 = at1 + h2.len();
            let at3 = at2 + 1;
            let at4 = at3 + sp.2.len();
            let at5 = at4 + 8;
            let at6 = at5 + head(0, sp.0).len();
            starts_with_at(b, pos, entry_item(sp)) <==> {
                &&& starts_with_at(b, pos, entry_open())
                &&& starts_with_at(b, at1, h2)
                &&& starts_with_at(b, at2, seq![0u8])
                &&& starts_with_at(b, at3, sp.2)
                &&& starts_with_at(b, at4, bounds_open())
                &&& starts_with_at(b, at5, head(0, sp.0))
                &&& starts_with_at(b, at6, head(0, sp.1))
            }
        }),
        entry_item(sp).len() == 8 + head(2, (sp.2.len() + 1) as u64).len() + 1 + sp.2.len() + 8 + head(0, sp.0).len()
            + head(0, sp.1).len(),
{
    let h2 = head(2, (sp.2.len() + 1) as u64);
    let at1 = pos + 8;
    let at2 = at1 + h2.len();
    let at3 = at2 + 1;
    let at4 = at3 + sp.2.len();
    let at5 = at4 + 8;
    let t5 = head(0, sp.0) + head(0, sp.1);
    let t4 = bounds_open() + t5;
    let t3 = sp.2 + t4;
    let t2 = seq![0u8] + t3;
    let t1 = h2 + t2;
    lemma_starts_concat(b, at5, head(0, sp.0), head(0, sp.1));
    lemma_starts_concat(b, at4, bounds_open(), t5);
    lemma_starts_concat(b, at3, sp.2, t4);
    lemma_starts_concat(b, at2, seq![0u8], t3);
    lemma_starts_concat(b, at1, h2, t2);
    lemma_starts_concat(b, pos, entry_open(), t1);
}

/// Reads one entry at `pos`: the entry and the position after it. It reads
/// exactly the entries whose encoding the bytes hold there.
fn read_entry(b: &[u8], pos: usize) -> (r: Result<(FileDataEntry, usize), Error>)
    requires
        pos <= b@.len(),
    ensures
        r matches Ok((e, p)) ==> {
            &&& starts_with_at(b@, pos as int, entry_item(span_of(e)))
            &&& p == pos + entry_item(span_of(e)).len()
            &&& span_of(e).2.len() < u64::MAX
        },
        forall|sp: Span|
            sp.2.len() < u64::MAX && #[trigger] starts_with_at(b@, pos as int, entry_item(sp)) ==> (r matches Ok(
                (e, p),
            ) && span_of(e) == sp),
{
    let open: [u8; 8] = [0xa2, 0x64, 0x6c, 0x69, 0x6e, 0x6b, 0xd8, 0x2a];
    let bounds: [u8; 8] = [0x66, 0x62, 0x6f, 0x75, 0x6e, 0x64, 0x73, 0x82];
    let zero: [u8; 1] = [0];
    assert(open@ =~= entry_open());
    assert(bounds@ =~= bounds_open());
    assert(zero@ =~= seq![0u8]);
    proof {
        assert forall|sp: Span| #[trigger] starts_with_at(b@, pos as int, entry_item(sp)) implies {
            let h2 = head(2, (sp.2.len() + 1) as u64);
            &&& starts_with_at(b@, pos as int, entry_open())
            &&& starts_with_at(b@, pos + 8, h2)
            &&& starts_with_at(b@, pos + 8 + h2.len(), seq![0u8])
            &&& starts_with_at(b@, pos + 8 + h2.len() + 1, sp.2)
            &&& starts_with_at(b@, pos + 8 + h2.len() + 1 + sp.2.len(), bounds_open())
            &&& starts_with_at(b@, pos + 8 + h2.len() + 1 + sp.2.len() + 8, head(0, sp.0))
            &&& starts_with_at(b@, pos + 8 + h2.len() + 1 + sp.2.len() + 8 + head(0, sp.0).len(), head(0, sp.1))
        } by {
            lemma_entry_pieces(b@, pos as int, sp);
        }
    }
    let at1 = match expect(b, pos, open.as_slice()) {
        Ok(p) => p,
        Err(e) => {
            return Err(e);
        },
    };
    let (len1, at2) = match read_head(b, at1, 2) {
        Ok(x) => x,
        Err(e) => {
            return Err(e);
        },
    };
    if len1 == 0 {
        return Err(Error::ExpectedLink);
    }
    let at3 = match expect(b, at2, zero.as_slice()) {
        Ok(p) => p,
        Err(e) => {
            return Err(e);
        },
    };
    let alen = len1 - 1;
    if ((b.len() - at3) as u64) < alen {
        return Err(Error::Eof);
    }
    let at4 = at3 + alen as usize;
    let addr = copy_range(b, at3, at4);
    let at5 = match expect(b, at4, bounds.as_slice()) {
        Ok(p) => p,
        Err(e) => {
            return Err(e);
        },
    };
    let (start, at6) = match read_head(b, at5, 0) {
        Ok(x) => x,
        Err(e) => {
            return Err(e);
        },
    };
    let (end, at7) = match read_head(b, at6, 0) {
        Ok(x) => x,
        Err(e) => {
            return Err(e);
        },
    };
    let e = FileDataEntry { bounds: FileDataBounds(start, end), link: Address::from_bytes(addr) };
    proof {
        let sp = span_of(e);
        assert(sp.2 == b@.subrange(at3 as int, at4 as int));
        lemma_entry_pieces(b@, pos as int, sp);
    }
    Ok((e, at7))
}

/// Appends the encoding of one entry.
fn push_entry(out: &mut Vec<u8>, e: &FileDataEntry)
    requires
        span_of(*e).2.len() < u64::MAX,
    ensures
        final(out)@ == old(out)@ + entry_item(span_of(*e)),
{
    let open: [u8; 8] = [0xa2, 0x64, 0x6c, 0x69, 0x6e, 0x6b, 0xd8, 0x2a];
    let bounds: [u8; 8] = [0x66, 0x62, 0x6f, 0x75, 0x6e, 0x64, 0x73, 0x82];
    assert(open@ =~= entry_open());
    assert(bounds@ =~= bounds_open());
    let link = e.link.as_bytes();
    push_bytes(out, open.as_slice());
    push_head(out, 2, link.len() as u64 + 1);
    out.push(0);
    push_bytes(out, link.as_slice());
    push_bytes(out, bounds.as_slice());
    push_head(out, 0, e.bounds.0);
    push_head(out, 0, e.bounds.1);
    assert(final(out)@ =~= old(out)@ + entry_item(span_of(*e)));
}

/// Reads `n` entries one after another from `pos`: the entries and the
/// position after them. It reads exactly the entry lists whose encoding the
/// bytes hold there.
fn read_entries(b: &[u8], pos: usize, n: u64) -> (r: Result<(Vec<FileDataEntry>, usize), Error>)
    requires
        pos <= b@.len(),
    ensures
        r matches Ok((v, p)) ==> {
            &&& spans_of(v@).len() == n
            &&& spans_fit(spans_of(v@))
            &&& starts_with_at(b@, pos as int, entries_items(spans_of(v@)))
            &&& p == pos + entries_items(spans_of(v@)).len()
        },
        forall|s: Seq<Span>|
            s.len() == n && spans_fit(s) && #[trigger] starts_with_at(b@, pos as int, entries_items(s)) ==> (r matches Ok(
                (v, p),
            ) && spans_of(v@) == s),
{
    let mut entries: Vec<FileDataEntry> = Vec::new();
    let mut p: usize = pos;
    let mut i: u64 = 0;
    proof {
        assert(spans_of(entries@) =~= Seq::<Span>::empty());
        assert(b@.subrange(pos as int, pos as int) =~= Seq::<u8>::empty());
        assert forall|s: Seq<Span>|
            s.len() == n && spans_fit(s) && #[trigger] starts_with_at(b@, pos as int, entries_items(s)) implies starts_with_at(
                b@,
                pos as int,
                entries_items(s.subrange(0, s.len() as int)),
            ) && spans_of(entries@) == s.subrange(0, 0) by {
            assert(s.subrange(0, s.len() as int) =~= s);
            assert(s.subrange(0, 0) =~= Seq::<Span>::empty());
        }
    }
    while i < n
        invariant
            pos <= p <= b@.len(),
            spans_of(entries@).len() == i,
            i <= n,
            b@.subrange(pos as int, p as int) == entries_items(spans_of(entries@)),
            spans_fit(spans_of(entries@)),
            forall|s: Seq<Span>|
                s.len() == n && spans_fit(s) && #[trigger] starts_with_at(b@, pos as int, entries_items(s)) ==> {
                    &&& spans_of(entries@) == s.subrange(0, i as int)
                    &&& starts_with_at(b@, p as int, entries_items(s.subrange(i as int, s.len() as int)))
                },
        decreases n - i,
    {
        proof {
            assert forall|s: Seq<Span>|
                s.len() == n && spans_fit(s) && #[trigger] starts_with_at(b@, pos as int, entries_items(s)) implies {
                    &&& s[i as int].2.len() < u64::MAX
                    &&& starts_with_at(b@, p as int, entry_item(s[i as int]))
                    &&& starts_with_at(
                        b@,
                        p + entry_item(s[i as int]).len(),
                        entries_items(s.subrange(i + 1, s.len() as int)),
                    )
                } by {
                let t = s.subrange(i as int, s.len() as int);
                assert(t[0] == s[i as int]);
                assert(t.drop_first() =~= s.subrange(i + 1, s.len() as int));
                lemma_starts_concat(b@, p as int, entry_item(s[i as int]), entries_items(t.drop_first()));
            }
        }
        let (e, q) = match read_entry(b, p) {
            Ok(x) => x,
            Err(err) => {
                return Err(err);
            },
        };
        let ghost before = spans_of(entries@);
        entries.push(e);
        proof {
            assert(spans_of(entries@) =~= before.push(span_of(e)));
            lemma_entries_push(before, span_of(e));
            assert(b@.subrange(pos as int, q as int) =~= b@.subrange(pos as int, p as int) + b@.subrange(
                p as int,
                q as int,
            ));
            assert forall|s: Seq<Span>|
                s.len() == n && spans_fit(s) && #[trigger] starts_with_at(b@, pos as int, entries_items(s)) implies {
                    &&& spans_of(entries@) == s.subrange(0, i + 1)
                    &&& starts_with_at(b@, q as int, entries_items(s.subrange(i + 1, s.len() as int)))
                } by {
                assert(span_of(e) == s[i as int]);
                assert(spans_of(entries@) =~= s.subrange(0, i + 1));
            }
        }
        p = q;
        i = i + 1;
    }
    proof {
        assert(b@.subrange(pos as int, p as int) =~= b@.subrange(pos as int, pos + entries_items(spans_of(entries@)).len()));
        assert forall|s: Seq<Span>|
            s.len() == n && spans_fit(s) && #[trigger] starts_with_at(b@, pos as int, entries_items(s)) implies spans_of(entries@) == s by {
            assert(s.subrange(0, s.len() as int) =~= s);
        }
    }
    Ok((entries, p))
}

impl File {
    /// The canonical encoding of the manifest.
    #[verifier::spinoff_prover]
    #[verifier::rlimit(50)]
    pub fn encode(&self) -> (r: Vec<u8>)
        requires
            forall|i: int| 0 <= i < self.spans().len() ==> #[trigger] self.spans()[i].2.len() < u64::MAX,
        ensures
            r@ == manifest_bytes(self.spans(), self.size, self.kind@),
    {
        let open: [u8; 6] = [0xa3, 0x64, 0x64, 0x61, 0x74, 0x61];
        let size_k: [u8; 5] = [0x64, 0x73, 0x69, 0x7a, 0x65];
        let type_k: [u8; 5] = [0x64, 0x74, 0x79, 0x70, 0x65];
        assert(open@ =~= manifest_open());
        assert(size_k@ =~= size_key());
        assert(type_k@ =~= type_key());
        let mut out: Vec<u8> = Vec::new();
        push_bytes(&mut out, open.as_slice());
        let n = self.data.len();
        push_head(&mut out, 4, n as u64);
        let ghost front = out@;
        let mut i: usize = 0;
        while i < n
            invariant
                n == self.data@.len(),
                i <= n,
                forall|k: int| 0 <= k < self.spans().len() ==> #[trigger] self.spans()[k].2.len() < u64::MAX,
                out@ == front + entries_items(self.spans().subrange(0, i as int)),
            decreases n - i,
        {
            assert(self.spans()[i as int] == span_of(self.data@[i as int]));
            push_entry(&mut out, &self.data[i]);
            proof {
                lemma_entries_push(self.spans().subrange(0, i as int), self.spans()[i as int]);
                assert(self.spans().subrange(0, i as int).push(self.spans()[i as int]) =~= self.spans().subrange(
                    0,
                    i + 1,
                ));
            }
            i = i + 1;
        }
        push_bytes(&mut out, size_k.as_slice());
        push_head(&mut out, 0, self.size);
        let ghost middle = out@;
        push_bytes(&mut out, type_k.as_slice());
        push_head(&mut out, 3, self.kind.len() as u64);
        push_bytes(&mut out, self.kind.as_slice());
        assert(out@ =~= middle + (type_key() + (head(3, self.kind@.len() as u64) + self.kind@)));
        assert(self.spans().subrange(0, n as int) =~= self.spans());
        assert(out@ =~= manifest_bytes(self.spans(), self.size, self.kind@));
        out
    }

    /// Reads a manifest from its canonical encoding. It succeeds exactly on
    /// the encodings of valid manifests, and gives back the manifest encoded.
    pub fn decode(b: &[u8]) -> (r: Result<File, Error>)
        ensures
            r is Ok <==> decodable(b@),
            r matches Ok(f) ==> f.wf() && spans_fit(f.spans()) && manifest_bytes(f.spans(), f.size, f.kind@) == b@,
            forall|s: Seq<Span>, kind: Seq<u8>|
                tiles(s) && spans_fit(s) && kind.len() <= u64::MAX && #[trigger] manifest_bytes(s, covered(s), kind)
                    == b@ ==> (r matches Ok(f) && f.spans() == s && f.size == covered(s) && f.kind@ == kind),
    {
        proof {
            assert forall|s: Seq<Span>, kind: Seq<u8>|
                tiles(s) && spans_fit(s) && kind.len() <= u64::MAX && #[trigger] manifest_bytes(s, covered(s), kind)
                    == b@ implies {
                    let front = manifest_open() + head(4, s.len() as u64);
                    &&& starts_with_at(b@, 0, front)
                    &&& starts_with_at(b@, front.len() as int, entries_items(s))
                    &&& starts_with_at(
                        b@,
                        (front.len() + entries_items(s).len()) as int,
                        manifest_tail(covered(s), kind),
                    )
                } by {
                let hn = head(4, s.len() as u64);
                let rest = entries_items(s) + manifest_tail(covered(s), kind);
                assert(b@.subrange(0, b@.len() as int) =~= b@);
                assert(starts_with_at(b@, 0, manifest_bytes(s, covered(s), kind)));
                lemma_starts_concat(b@, 0, manifest_open() + hn, rest);
                assert(manifest_bytes(s, covered(s), kind) =~= (manifest_open() + hn) + rest);
                lemma_starts_concat(
                    b@,
                    (manifest_open() + hn).len() as int,
                    entries_items(s),
                    manifest_tail(covered(s), kind),
                );
            }
        }
        let (n, at2) = match read_front(b) {
            Ok(x) => x,
            Err(e) => {
                return Err(e);
            },
        };
        let (entries, p) = match read_entries(b, at2, n) {
            Ok(x) => x,
            Err(e) => {
                return Err(e);
            },
        };
        let (size, kind, at5) = match read_tail(b, p) {
            Ok(x) => x,
            Err(e) => {
                return Err(e);
            },
        };
        let ghost sp = spans_of(entries@);
        proof {
            assert(b@.subrange(0, at5 as int) =~= b@.subrange(0, at2 as int) + b@.subrange(at2 as int, p as int)
                + b@.subrange(p as int, at5 as int));
            assert(b@.subrange(0, at5 as int) =~= manifest_bytes(sp, size, kind@));
            assert forall|s: Seq<Span>, k: Seq<u8>|
                tiles(s) && spans_fit(s) && k.len() <= u64::MAX && #[trigger] manifest_bytes(s, covered(s), k)
                    == b@ implies sp == s && size == covered(s) && kind@ == k && at5 == b@.len() by {
                assert(n == s.len());
                assert(sp == s);
                assert(manifest_bytes(s, covered(s), k).len() == b@.len());
            }
        }
        if at5 != b.len() {
            return Err(Error::TrailingCharacters);
        }
        let f = File { data: entries, size, kind };
        if !f.is_valid() {
            return Err(Error::MalformedRanges);
        }
        proof {
            assert(b@.subrange(0, at5 as int) =~= b@);
        }
        Ok(f)
    }
}

/// Reads the opening of a manifest: the entry count and the position after it.
fn read_front(b: &[u8]) -> (r: Result<(u64, usize), Error>)
    ensures
        r matches Ok((n, p)) ==> starts_with_at(b@, 0, manifest_open() + head(4, n)) && p == (manifest_open()
            + head(4, n)).len(),
        forall|n: u64| #[trigger] starts_with_at(b@, 0, manifest_open() + head(4, n)) ==> r == Ok::<
            (u64, usize),
            Error,
        >((n, (manifest_open() + head(4, n)).len() as usize)),
{
    let open: [u8; 6] = [0xa3, 0x64, 0x64, 0x61, 0x74, 0x61];
    assert(open@ =~= manifest_open());
    proof {
        assert forall|n: u64| #[trigger] starts_with_at(b@, 0, manifest_open() + head(4, n)) implies starts_with_at(
            b@,
            0,
            manifest_open(),
        ) && starts_with_at(b@, 6, head(4, n)) by {
            lemma_starts_concat(b@, 0, manifest_open(), head(4, n));
        }
    }
    let at1 = match expect(b, 0, open.as_slice()) {
        Ok(p) => p,
        Err(e) => {
            return Err(e);
        },
    };
    let (n, at2) = match read_head(b, at1, 4) {
        Ok(x) => x,
        Err(e) => {
            return Err(e);
        },
    };
    proof {
        lemma_starts_concat(b@, 0, manifest_open(), head(4, n));
    }
    Ok((n, at2))
}

proof fn lemma_tail_pieces(b: Seq<u8>, pos: int, size: u64, kind: Seq<u8>)
    requires
        0 <= pos,
    ensures
        ({
            let hs = head(0, size);
            let hk = head(3, kind.len() as u64);
            starts_with_at(b, pos, manifest_tail(size, kind)) <==> {
                &&& starts_with_at(b, pos, size_key())
                &&& starts_with_at(b, pos + 5, hs)
                &&& starts_with_at(b, pos + 5 + hs.len(), type_key())
                &&& starts_with_at(b, pos + 10 + hs.len(), hk)
                &&& starts_with_at(b, pos + 10 + hs.len() + hk.len(), kind)
            }
        }),
        manifest_tail(size, kind).len() == 10 + head(0, size).len() + head(3, kind.len() as u64).len() + kind.len(),
{
    let hs = head(0, size);
    let hk = head(3, kind.len() as u64);
    let t3 = hk + kind;
    let t2 = type_key() + t3;
    let t1 = hs + t2;
    lemma_starts_concat(b, pos + 10 + hs.len(), hk, kind);
    lemma_starts_concat(b, pos + 5 + hs.len(), type_key(), t3);
    lemma_starts_concat(b, pos + 5, hs, t2);
    lemma_starts_concat(b, pos, size_key(), t1);
}

/// Reads the end of a manifest at `pos`: the size, the kind and the position
/// after them.
fn read_tail(b: &[u8], pos: usize) -> (r: Result<(u64, Vec<u8>, usize), Error>)
    requires
        pos <= b@.len(),
    ensures
        r matches Ok((size, kind, p)) ==> starts_with_at(b@, pos as int, manifest_tail(size, kind@)) && p == pos
            + manifest_tail(size, kind@).len(),
        forall|size: u64, kind: Seq<u8>|
            kind.len() <= u64::MAX && #[trigger] starts_with_at(b@, pos as int, manifest_tail(size, kind)) ==> (r matches Ok(
                (s2, k2, p),
            ) && s2 == size && k2@ == kind),
{
    let size_k: [u8; 5] = [0x64, 0x73, 0x69, 0x7a, 0x65];
    let type_k: [u8; 5] = [0x64, 0x74, 0x79, 0x70, 0x65];
    assert(size_k@ =~= size_key());
    assert(type_k@ =~= type_key());
    proof {
        assert forall|size: u64, kind: Seq<u8>| #[trigger] starts_with_at(b@, pos as int, manifest_tail(size, kind)) implies {
            let hs = head(0, size);
            let hk = head(3, kind.len() as u64);
            &&& starts_with_at(b@, pos as int, size_key())
            &&& starts_with_at(b@, pos + 5, hs)
            &&& starts_with_at(b@, pos + 5 + hs.len(), type_key())
            &&& starts_with_at(b@, pos + 10 + hs.len(), hk)
            &&& starts_with_at(b@, pos + 10 + hs.len() + hk.len(), kind)
        } by {
            lemma_tail_pieces(b@, pos as int, size, kind);
        }
    }
    let at3 = match expect(b, pos, size_k.as_slice()) {
        Ok(x) => x,
        Err(e) => {
            return Err(e);
        },
    };
    let (size, at4) = match read_head(b, at3, 0) {
        Ok(x) => x,
        Err(e) => {
            return Err(e);
        },
    };
    let at5 = match expect(b, at4, type_k.as_slice()) {
        Ok(x) => x,
        Err(e) => {
            return Err(e);
        },
    };
    let (klen, at6) = match read_head(b, at5, 3) {
        Ok(x) => x,
        Err(e) => {
            return Err(e);
        },
    };
    if ((b.len() - at6) as u64) < klen {
        return Err(Error::Eof);
    }
    let at7 = at6 + klen as usize;
    let kind = copy_range(b, at6, at7);
    proof {
        lemma_tail_pieces(b@, pos as int, size, kind@);
    }
    Ok((size, kind, at7))
}

/// The encoding of a valid manifest is decodable; by `File::decode`'s
/// contract, decoding it gives back the same ranges and size.
pub proof fn lemma_encoding_decodes(f: File)
    requires
        f.wf(),
        spans_fit(f.spans()),
        f.kind@.len() <= u64::MAX,
    ensures
        decodable(manifest_bytes(f.spans(), f.size, f.kind@)),
{
}

} // verus!
