//! Cutting a resource into byte ranges, and putting the ranges back together.

use vstd::prelude::*;

verus! {

/// The largest number of bytes one ranged request asks for.
pub const SEGMENT_SIZE: usize = 500_000;

/// An inclusive byte range `[start, end]` of the resource.
#[derive(Debug, Clone, Copy, PartialEq, Eq, Structural)]
pub struct Segment {
    pub start: usize,
    pub end: usize,
}

/// How many segments a resource of `len` bytes is cut into.
pub open spec fn segment_count(len: nat) -> nat {
    if len == 0 {
        0
    } else {
        ((len - 1) as nat / SEGMENT_SIZE as nat) + 1
    }
}

/// The first byte of segment `i`.
pub open spec fn seg_start(i: nat) -> nat {
    i * SEGMENT_SIZE as nat
}

/// The last byte of segment `i` of a resource of `len` bytes.
pub open spec fn seg_end(len: nat, i: nat) -> nat {
    if seg_start(i) + SEGMENT_SIZE as nat <= len {
        (seg_start(i) + SEGMENT_SIZE as nat - 1) as nat
    } else {
        (len - 1) as nat
    }
}

proof fn lemma_count_after(len: nat, i: nat)
    requires
        i >= 1,
        (i - 1) * SEGMENT_SIZE < len <= i * SEGMENT_SIZE,
    ensures
        segment_count(len) == i,
{
    let q = ((len - 1) as nat / SEGMENT_SIZE as nat);
    assert(q * SEGMENT_SIZE <= len - 1 < (q + 1) * SEGMENT_SIZE) by (nonlinear_arith)
        requires
            q == ((len - 1) as nat / SEGMENT_SIZE as nat),
            len >= 1,
    ;
    assert(q + 1 == i) by (nonlinear_arith)
        requires
            q * SEGMENT_SIZE <= len - 1 < (q + 1) * SEGMENT_SIZE,
            (i - 1) * SEGMENT_SIZE < len <= i * SEGMENT_SIZE,
    ;
}

/// Every segment's range is well formed and inside the resource; segments
/// follow each other with no gap and no overlap, from byte 0 to the last byte;
/// and each byte lies in the segment its offset divided by the segment size
/// names, and in no other.
pub proof fn lemma_segments_cover(len: nat)
    ensures
        forall|i: nat|
            i < segment_count(len) ==> seg_start(i) <= #[trigger] seg_end(len, i) < len,
        forall|i: nat|
            i + 1 < segment_count(len) ==> seg_start(i + 1) == #[trigger] seg_end(len, i) + 1,
        segment_count(len) > 0 ==> seg_start(0) == 0 && seg_end(len, (segment_count(len) - 1) as nat)
            == len - 1,
        forall|b: nat|
            b < len ==> (b / SEGMENT_SIZE as nat) < segment_count(len) && seg_start(
                #[trigger] (b / SEGMENT_SIZE as nat),
            ) <= b <= seg_end(len, b / SEGMENT_SIZE as nat),
        forall|b: nat, i: nat|
            #![trigger seg_end(len, i), (b / SEGMENT_SIZE as nat)]
            b < len && i < segment_count(len) && seg_start(i) <= b <= seg_end(len, i) ==> i == b
                / SEGMENT_SIZE as nat,
{
    let n = segment_count(len);
    assert forall|i: nat| i < segment_count(len) implies seg_start(i) <= #[trigger] seg_end(len, i)
        < len by {
        let q = ((len - 1) as nat / SEGMENT_SIZE as nat);
        assert(i <= q);
        assert(i * SEGMENT_SIZE <= q * SEGMENT_SIZE) by (nonlinear_arith)
            requires
                i <= q,
        ;
        assert(q * SEGMENT_SIZE <= len - 1) by (nonlinear_arith)
            requires
                q == ((len - 1) as nat / SEGMENT_SIZE as nat),
                len >= 1,
        ;
    }
    assert forall|i: nat| i + 1 < segment_count(len) implies seg_start(i + 1) == #[trigger] seg_end(
        len,
        i,
    ) + 1 by {
        let q = ((len - 1) as nat / SEGMENT_SIZE as nat);
        assert(i + 1 <= q);
        assert((i + 1) * SEGMENT_SIZE <= q * SEGMENT_SIZE) by (nonlinear_arith)
            requires
                i + 1 <= q,
        ;
        assert(q * SEGMENT_SIZE <= len - 1) by (nonlinear_arith)
            requires
                q == ((len - 1) as nat / SEGMENT_SIZE as nat),
                len >= 1,
        ;
    }
    if n > 0 {
        let q = ((len - 1) as nat / SEGMENT_SIZE as nat);
        assert(len - 1 < (q + 1) * SEGMENT_SIZE) by (nonlinear_arith)
            requires
                q == ((len - 1) as nat / SEGMENT_SIZE as nat),
                len >= 1,
        ;
    }
    assert forall|b: nat| b < len implies (b / SEGMENT_SIZE as nat) < segment_count(len) && seg_start(
        #[trigger] (b / SEGMENT_SIZE as nat),
    ) <= b <= seg_end(len, b / SEGMENT_SIZE as nat) by {
        let i = b / SEGMENT_SIZE as nat;
        let q = ((len - 1) as nat / SEGMENT_SIZE as nat);
        assert(i <= q) by (nonlinear_arith)
            requires
                i == b / SEGMENT_SIZE as nat,
                q == ((len - 1) as nat / SEGMENT_SIZE as nat),
                b <= len - 1,
        ;
        assert(i * SEGMENT_SIZE <= b < (i + 1) * SEGMENT_SIZE) by (nonlinear_arith)
            requires
                i == b / SEGMENT_SIZE as nat,
        ;
    }
    assert forall|b: nat, i: nat|
        #![trigger seg_end(len, i), (b / SEGMENT_SIZE as nat)]
        b < len && i < segment_count(len) && seg_start(i) <= b <= seg_end(len, i) implies i == b
            / SEGMENT_SIZE as nat by {
        assert(i * SEGMENT_SIZE <= b < (i + 1) * SEGMENT_SIZE);
        assert(i == b / SEGMENT_SIZE as nat) by (nonlinear_arith)
            requires
                i * SEGMENT_SIZE <= b < (i + 1) * SEGMENT_SIZE,
        ;
    }
}

/// Whether a resource of `len` bytes is fetched in segments rather than by
/// one request.
pub open spec fn is_segmented(len: nat) -> bool {
    len > SEGMENT_SIZE
}

/// Whether a resource of `content_length` bytes is fetched in segments.
pub fn needs_segments(content_length: usize) -> (r: bool)
    ensures
        r == is_segmented(content_length as nat),
{
    content_length > SEGMENT_SIZE
}

/// The segments of a resource of `content_length` bytes, in order: each
/// `SEGMENT_SIZE` bytes long but the last, which ends at the last byte.
pub fn segments(content_length: usize) -> (r: Vec<Segment>)
    ensures
        r@.len() == segment_count(content_length as nat),
        forall|i: int|
            0 <= i < r@.len() ==> (#[trigger] r@[i]).start as nat == seg_start(i as nat)
                && r@[i].end as nat == seg_end(content_length as nat, i as nat),
{
    let mut r: Vec<Segment> = Vec::new();
    let mut cursor: usize = 0;
    while cursor < content_length
        invariant
            cursor as nat == seg_start(r@.len() as nat),
            r@.len() > 0 ==> (r@.len() - 1) * SEGMENT_SIZE < content_length,
            r@.len() == 0 ==> cursor == 0,
            cursor <= content_length || content_length <= (r@.len() - 1) * SEGMENT_SIZE
                + SEGMENT_SIZE,
            forall|i: int|
                0 <= i < r@.len() ==> (#[trigger] r@[i]).start as nat == seg_start(i as nat)
                    && r@[i].end as nat == seg_end(content_length as nat, i as nat),
        decreases content_length - cursor,
    {
        let end = if content_length - cursor > SEGMENT_SIZE {
            cursor + SEGMENT_SIZE - 1
        } else {
            content_length - 1
        };
        r.push(Segment { start: cursor, end });
        if content_length - cursor > SEGMENT_SIZE {
            cursor = cursor + SEGMENT_SIZE;
        } else {
            cursor = content_length;
            proof {
                lemma_count_after(content_length as nat, r@.len() as nat);
            }
            assert(r@.len() == segment_count(content_length as nat));
            return r;
        }
    }
    proof {
        if content_length > 0 {
            lemma_count_after(content_length as nat, r@.len() as nat);
        }
    }
    r
}

/// The file after `data` is written at `offset`; a gap between the old end
/// and `offset` reads as zeros, as it does after a seek past the end.
pub open spec fn write_at(file: Seq<u8>, offset: nat, data: Seq<u8>) -> Seq<u8> {
    let n = if offset + data.len() > file.len() {
        offset + data.len()
    } else {
        file.len() as nat
    };
    Seq::new(
        n,
        |b: int|
            if offset <= b < offset + data.len() {
                data[b - offset]
            } else if b < file.len() {
                file[b]
            } else {
                0u8
            },
    )
}

/// The bytes of segment `i` of `src`.
pub open spec fn segment_bytes(src: Seq<u8>, i: nat) -> Seq<u8> {
    src.subrange(seg_start(i) as int, seg_end(src.len(), i) + 1int)
}

/// The file that the writer leaves when the segments of `src` arrive in the
/// order `order` names them, each written at its first byte.
pub open spec fn assemble(src: Seq<u8>, order: Seq<nat>) -> Seq<u8>
    decreases order.len(),
{
    if order.len() == 0 {
        Seq::empty()
    } else {
        write_at(
            assemble(src, order.drop_last()),
            seg_start(order.last()),
            segment_bytes(src, order.last()),
        )
    }
}

proof fn lemma_assemble_len(src: Seq<u8>, order: Seq<nat>)
    requires
        forall|k: int| 0 <= k < order.len() ==> #[trigger] order[k] < segment_count(src.len()),
    ensures
        assemble(src, order).len() <= src.len(),
    decreases order.len(),
{
    lemma_segments_cover(src.len());
    if order.len() > 0 {
        let prefix = order.drop_last();
        assert(forall|k: int| 0 <= k < prefix.len() ==> prefix[k] == order[k]);
        lemma_assemble_len(src, prefix);
        assert(order[order.len() - 1] < segment_count(src.len()));
    }
}

proof fn lemma_assemble_byte(src: Seq<u8>, order: Seq<nat>, k: int, b: int)
    requires
        forall|k: int| 0 <= k < order.len() ==> #[trigger] order[k] < segment_count(src.len()),
        0 <= k < order.len(),
        seg_start(order[k]) <= b <= seg_end(src.len(), order[k]),
    ensures
        b < assemble(src, order).len(),
        assemble(src, order)[b] == src[b],
    decreases order.len(),
{
    lemma_segments_cover(src.len());
    let prefix = order.drop_last();
    let j = order.last();
    assert(order[order.len() - 1] < segment_count(src.len()));
    assert(seg_start(j) <= seg_end(src.len(), j) < src.len());
    if k < order.len() - 1 {
        assert(forall|i: int| 0 <= i < prefix.len() ==> prefix[i] == order[i]);
        assert(prefix[k] == order[k]);
        lemma_assemble_byte(src, prefix, k, b);
    }
}

/// Whatever order the segments arrive in, and even if some arrive twice,
/// writing each at its first byte rebuilds the resource exactly, once every
/// segment has arrived.
pub proof fn lemma_assembly_any_order(src: Seq<u8>, order: Seq<nat>)
    requires
        forall|k: int| 0 <= k < order.len() ==> #[trigger] order[k] < segment_count(src.len()),
        forall|i: nat| i < segment_count(src.len()) ==> #[trigger] order.contains(i),
    ensures
        assemble(src, order) == src,
{
    lemma_segments_cover(src.len());
    lemma_assemble_len(src, order);
    let g = assemble(src, order);
    assert forall|b: int| 0 <= b < src.len() implies b < g.len() && g[b] == src[b] by {
        let i = (b as nat) / SEGMENT_SIZE as nat;
        assert(i < segment_count(src.len()));
        assert(order.contains(i));
        let k = choose|k: int| 0 <= k < order.len() && #[trigger] order[k] == i;
        assert(seg_start(order[k]) <= b <= seg_end(src.len(), order[k]));
        lemma_assemble_byte(src, order, k, b);
    }
    if src.len() > 0 {
        let last: int = src.len() - 1;
        let i = (last as nat) / SEGMENT_SIZE as nat;
        assert(i < segment_count(src.len()));
        assert(order.contains(i));
        let k = choose|k: int| 0 <= k < order.len() && #[trigger] order[k] == i;
        lemma_assemble_byte(src, order, k, last);
    }
    assert(g =~= src);
}

/// Writes `data` into `file` at `offset`, zero-filling any gap.
pub fn place(file: &mut Vec<u8>, offset: usize, data: &[u8])
    requires
        offset + data@.len() <= usize::MAX,
    ensures
        final(file)@ == write_at(old(file)@, offset as nat, data@),
{
    let end = offset + data.len();
    if file.len() < end {
        file.resize(end, 0u8);
    }
    let ghost base = file@;
    assert(forall|b: int| 0 <= b < base.len() ==> base[b] == (if b < old(file)@.len() {
        old(file)@[b]
    } else {
        0u8
    }));
    let mut i: usize = 0;
    while i < data.len()
        invariant
            0 <= i <= data@.len(),
            end == offset + data@.len(),
            base.len() == file@.len(),
            base.len() >= end,
            base.len() == write_at(old(file)@, offset as nat, data@).len(),
            forall|b: int| 0 <= b < base.len() ==> base[b] == (if b < old(file)@.len() {
                old(file)@[b]
            } else {
                0u8
            }),
            forall|b: int|
                0 <= b < file@.len() ==> #[trigger] file@[b] == (if offset <= b < offset + i {
                    data@[b - offset]
                } else {
                    base[b]
                }),
        decreases data@.len() - i,
    {
        file.set(offset + i, data[i]);
        i = i + 1;
    }
    assert(file@ =~= write_at(old(file)@, offset as nat, data@));
}

} // verus!
