//! What holds of sealing and opening together.

use crate::cipher::{opened, pull_accepts, ChunkTag, HEADER_LEN, KEY_LEN, OVERHEAD};
use crate::codec::{
    descriptor_bytes, descriptor_of, lemma_descriptor_of_lead, lemma_descriptor_round_trip,
    Descriptor, DESCRIPTOR_LEN,
};
use crate::error::Error;
use crate::layout::{
    chunk_count, concat, identity_matches, last_chunk_len, metadata_chunk_len,
    metadata_outcome, open_body, opening, read_len, seal_body, step_outcome, OpenedView, LEAD_LEN,
};
use vstd::arithmetic::div_mod::{
    lemma_basic_div, lemma_div_by_self, lemma_div_plus_one, lemma_mod_self_0,
    lemma_mod_sub_multiples_vanish, lemma_small_mod,
};
use vstd::prelude::*;

verus! {

/// Whether `chunks` are what sealing `pieces` in order gives on a stream
/// with transcript `t`, as far as an opening stream can tell: each chunk
/// opens, after those before it, to its piece. Every piece is a full block
/// and tagged `Message`, but for the last one where `finished`, which is
/// tagged `Final` and may be shorter, not empty.
pub open spec fn chunks_sealed(
    t: Seq<Seq<u8>>,
    chunks: Seq<Seq<u8>>,
    pieces: Seq<Seq<u8>>,
    chunk_size: u32,
    finished: bool,
) -> bool {
    &&& chunks.len() == pieces.len()
    &&& forall|i: int|
        0 <= i < chunks.len() ==> {
            let last = finished && i == chunks.len() - 1;
            &&& (#[trigger] chunks[i]).len() == pieces[i].len() + OVERHEAD
            &&& opened(t + chunks.take(i), chunks[i]) == Some(
                (pieces[i], if last { ChunkTag::Final } else { ChunkTag::Message }),
            )
            &&& if last {
                0 < pieces[i].len() <= chunk_size
            } else {
                pieces[i].len() == chunk_size
            }
        }
}

/// Whether `body` is `plaintext` sealed block by block on a stream with
/// transcript `t`: it is made of chunks that are sealed in order, to the
/// end, and whose pieces make up the plaintext.
pub open spec fn sealed_in_chunks(
    t: Seq<Seq<u8>>,
    body: Seq<u8>,
    plaintext: Seq<u8>,
    chunk_size: u32,
) -> bool {
    exists|chunks: Seq<Seq<u8>>, pieces: Seq<Seq<u8>>|
        {
            &&& #[trigger] chunks_sealed(t, chunks, pieces, chunk_size, true)
            &&& concat(chunks) == body
            &&& concat(pieces) == plaintext
        }
}

/// One more part at the end adds its bytes at the end.
pub proof fn lemma_concat_push(parts: Seq<Seq<u8>>, part: Seq<u8>)
    ensures
        concat(parts.push(part)) == concat(parts) + part,
    decreases parts.len(),
{
    if parts.len() == 0 {
        assert(parts.push(part).skip(1) =~= Seq::<Seq<u8>>::empty());
        assert(concat(parts.push(part).skip(1)) =~= Seq::<u8>::empty());
        assert(concat(parts) =~= Seq::<u8>::empty());
        assert(concat(parts.push(part)) =~= concat(parts) + part);
    } else {
        assert(parts.push(part).skip(1) =~= parts.skip(1).push(part));
        lemma_concat_push(parts.skip(1), part);
        assert(concat(parts.push(part)) =~= concat(parts) + part);
    }
}

/// Chunks sealed in order open, in order, to the bytes that went in.
pub proof fn lemma_sealed_chunks_open(
    t: Seq<Seq<u8>>,
    chunks: Seq<Seq<u8>>,
    pieces: Seq<Seq<u8>>,
    chunk_size: u32,
)
    requires
        chunks_sealed(t, chunks, pieces, chunk_size, true),
        concat(pieces).len() <= u64::MAX,
    ensures
        open_body(t, concat(chunks), chunk_size, concat(pieces).len() as u64) == Ok::<
            Seq<u8>,
            Error,
        >(concat(pieces)),
    decreases chunks.len(),
{
    if chunks.len() == 0 {
        assert(concat(pieces).len() == 0);
        assert(concat(pieces) =~= Seq::<u8>::empty());
    } else {
        let c = chunks[0];
        let p = pieces[0];
        let rest = concat(chunks);
        let tail = concat(chunks.skip(1));
        let plain_tail = concat(pieces.skip(1));
        let remaining = concat(pieces).len() as u64;
        assert(rest == c + tail);
        assert(concat(pieces) == p + plain_tail);
        assert(t + chunks.take(0) =~= t);
        assert(opened(t, c) == Some(
            (p, if chunks.len() == 1 { ChunkTag::Final } else { ChunkTag::Message }),
        ));
        assert(p.len() > 0) by {
            if chunks.len() > 1 {
                // a full block, and the last block, which holds a byte, both fit
                let k = chunks.len() - 1;
                assert(chunks[k].len() == pieces[k].len() + OVERHEAD);
                assert(0 < pieces[k].len() <= chunk_size);
            }
        }
        assert(remaining > 0);
        if chunks.len() == 1 {
            assert(chunks.skip(1) =~= Seq::<Seq<u8>>::empty());
            assert(pieces.skip(1) =~= Seq::<Seq<u8>>::empty());
            assert(tail =~= Seq::<u8>::empty());
            assert(rest =~= c);
            let n = read_len(rest.len(), chunk_size);
            assert(n == rest.len());
            assert(rest.take(n) =~= c);
            assert(rest.skip(n) =~= Seq::<u8>::empty());
            assert(step_outcome(chunk_size, remaining, opened(t, c)) == Ok::<(Seq<u8>, u64), Error>(
                (p, 0u64),
            ));
            assert(open_body(t.push(c), rest.skip(n), chunk_size, 0u64) == Ok::<Seq<u8>, Error>(
                Seq::empty(),
            ));
            assert(p + Seq::<u8>::empty() =~= p);
            assert(concat(pieces) =~= p);
        } else {
            let n = read_len(rest.len(), chunk_size);
            assert(c.len() == chunk_size + OVERHEAD);
            assert(n == chunk_size + OVERHEAD);
            assert(rest.take(n) =~= c);
            assert(rest.skip(n) =~= tail);
            let left = (remaining - chunk_size) as u64;
            assert(left == plain_tail.len());
            assert(step_outcome(chunk_size, remaining, opened(t, c)) == Ok::<(Seq<u8>, u64), Error>(
                (p, left),
            ));
            let t1 = t.push(c);
            let chunks1 = chunks.skip(1);
            let pieces1 = pieces.skip(1);
            assert forall|i: int| 0 <= i < chunks1.len() implies {
                let last = i == chunks1.len() - 1;
                &&& (#[trigger] chunks1[i]).len() == pieces1[i].len() + OVERHEAD
                &&& opened(t1 + chunks1.take(i), chunks1[i]) == Some(
                    (pieces1[i], if last { ChunkTag::Final } else { ChunkTag::Message }),
                )
                &&& if last {
                    0 < pieces1[i].len() <= chunk_size
                } else {
                    pieces1[i].len() == chunk_size
                }
            } by {
                assert(chunks1[i] == chunks[i + 1]);
                assert(pieces1[i] == pieces[i + 1]);
                assert(t1 + chunks1.take(i) =~= t + chunks.take(i + 1));
            }
            lemma_sealed_chunks_open(t1, chunks1, pieces1, chunk_size);
        }
    }
}

/// A chunk sealed after chunks sealed in order is sealed in order too.
pub proof fn lemma_chunks_sealed_push(
    t: Seq<Seq<u8>>,
    chunks: Seq<Seq<u8>>,
    pieces: Seq<Seq<u8>>,
    chunk_size: u32,
    chunk: Seq<u8>,
    piece: Seq<u8>,
    finished: bool,
)
    requires
        chunks_sealed(t, chunks, pieces, chunk_size, false),
        chunk.len() == piece.len() + OVERHEAD,
        opened(t + chunks, chunk) == Some(
            (piece, if finished { ChunkTag::Final } else { ChunkTag::Message }),
        ),
        if finished {
            0 < piece.len() <= chunk_size
        } else {
            piece.len() == chunk_size
        },
    ensures
        chunks_sealed(t, chunks.push(chunk), pieces.push(piece), chunk_size, finished),
{
    let chunks1 = chunks.push(chunk);
    let pieces1 = pieces.push(piece);
    assert forall|i: int| 0 <= i < chunks1.len() implies {
        let last = finished && i == chunks1.len() - 1;
        &&& (#[trigger] chunks1[i]).len() == pieces1[i].len() + OVERHEAD
        &&& opened(t + chunks1.take(i), chunks1[i]) == Some(
            (pieces1[i], if last { ChunkTag::Final } else { ChunkTag::Message }),
        )
        &&& if last {
            0 < pieces1[i].len() <= chunk_size
        } else {
            pieces1[i].len() == chunk_size
        }
    } by {
        if i < chunks.len() {
            assert(chunks1[i] == chunks[i]);
            assert(chunks1.take(i) =~= chunks.take(i));
        } else {
            assert(chunks1.take(i) =~= chunks);
        }
    }
}

/// Round trip: a container put together from the descriptor, a header that
/// the cipher accepts, a first chunk that opens to descriptor and metadata,
/// and a body that opens to the plaintext, opens to that metadata and that
/// plaintext.
pub proof fn lemma_round_trip(
    key: Seq<u8>,
    header: Seq<u8>,
    metadata: Seq<u8>,
    plaintext: Seq<u8>,
    d: Descriptor,
    first: Seq<u8>,
    first_tag: ChunkTag,
    body: Seq<u8>,
)
    requires
        key.len() == KEY_LEN,
        header.len() == HEADER_LEN,
        d.metadata_size == metadata.len(),
        pull_accepts(key, header),
        first.len() == DESCRIPTOR_LEN + metadata.len() + OVERHEAD,
        opened(seq![key, header], first) == Some((descriptor_bytes(d) + metadata, first_tag)),
        open_body(seq![key, header, first], body, d.chunk_size, d.plain_size) == Ok::<
            Seq<u8>,
            Error,
        >(plaintext),
    ensures
        opening(key, descriptor_bytes(d) + header + first + body, false, Seq::empty()) == Ok::<
            OpenedView,
            Error,
        >(OpenedView { metadata, plaintext: Some(plaintext) }),
{
    let lead = descriptor_bytes(d);
    let c = lead + header + first + body;
    lemma_descriptor_round_trip(d);
    assert(c.take(DESCRIPTOR_LEN as int) =~= lead);
    assert(lead.take(DESCRIPTOR_LEN as int) =~= lead);
    lemma_descriptor_of_lead(c, lead);
    assert(descriptor_of(c) == d);
    let need = metadata_chunk_len(c);
    assert(need == first.len());
    assert(c.subrange(DESCRIPTOR_LEN as int, LEAD_LEN as int) =~= header);
    assert(c.subrange(LEAD_LEN as int, LEAD_LEN + need) =~= first);
    assert(c.skip(LEAD_LEN + need) =~= body);
    let sealed_first = lead + metadata;
    assert(sealed_first.take(DESCRIPTOR_LEN as int) =~= lead);
    assert(sealed_first.skip(DESCRIPTOR_LEN as int) =~= metadata);
    assert(metadata_outcome(c.take(DESCRIPTOR_LEN as int), opened(seq![key, header], first))
        == Ok::<Seq<u8>, Error>(metadata));
    assert(seq![key, header].push(first) =~= seq![key, header, first]);
}

/// Asking for the metadata alone gives the metadata that a full opening of
/// the same container gives, and no plaintext.
pub proof fn lemma_metadata_only_agrees(
    key: Seq<u8>,
    container: Seq<u8>,
    check_path: Seq<u8>,
    other_path: Seq<u8>,
)
    requires
        opening(key, container, false, check_path) is Ok,
    ensures
        opening(key, container, true, other_path) == Ok::<OpenedView, Error>(
            OpenedView {
                metadata: opening(key, container, false, check_path)->Ok_0.metadata,
                plaintext: None,
            },
        ),
{
}

/// The identity check lets through exactly the path that the metadata
/// names, and only for a regular file: an opening with a path to check
/// succeeds where the opening without one does and the identity matches,
/// and gives the same.
pub proof fn lemma_check_path_exact(key: Seq<u8>, container: Seq<u8>, check_path: Seq<u8>)
    requires
        check_path.len() > 0,
    ensures
        opening(key, container, false, check_path) is Ok <==> {
            &&& opening(key, container, false, Seq::empty()) is Ok
            &&& identity_matches(
                opening(key, container, false, Seq::empty())->Ok_0.metadata,
                check_path,
            )
        },
        opening(key, container, false, check_path) is Ok ==> opening(
            key,
            container,
            false,
            check_path,
        ) == opening(key, container, false, Seq::empty()),
{
}

/// An empty plaintext has no body chunks: nothing is sealed for it, and
/// nothing is read for it.
pub proof fn lemma_empty_plaintext(t: Seq<Seq<u8>>, rest: Seq<u8>, chunk_size: u32)
    ensures
        chunk_count(0, chunk_size as nat) == 0,
        seal_body(t, Seq::empty(), chunk_size) == Ok::<Seq<u8>, Error>(Seq::empty()),
        open_body(t, rest, chunk_size, 0) == Ok::<Seq<u8>, Error>(Seq::empty()),
{
}

/// Chunk boundary: a plaintext of a whole number of chunks ends in a full
/// chunk, with no empty chunk behind it; any other ends in a chunk of what
/// is left over.
pub proof fn lemma_chunk_boundary(plain_size: nat, chunk_size: nat)
    requires
        plain_size > 0,
        chunk_size > 0,
    ensures
        plain_size % chunk_size == 0 ==> {
            &&& chunk_count(plain_size, chunk_size) == plain_size / chunk_size
            &&& last_chunk_len(plain_size, chunk_size) == chunk_size
        },
        plain_size % chunk_size != 0 ==> {
            &&& chunk_count(plain_size, chunk_size) == plain_size / chunk_size + 1
            &&& last_chunk_len(plain_size, chunk_size) == plain_size % chunk_size
        },
    decreases plain_size,
{
    let ps = plain_size as int;
    let cs = chunk_size as int;
    if plain_size < chunk_size {
        lemma_small_mod(plain_size, chunk_size);
        lemma_basic_div(ps, cs);
    } else if plain_size == chunk_size {
        lemma_mod_self_0(cs);
        lemma_div_by_self(cs);
    } else {
        let less = (plain_size - chunk_size) as nat;
        lemma_chunk_boundary(less, chunk_size);
        lemma_mod_sub_multiples_vanish(ps, cs);
        lemma_div_plus_one(ps - cs, cs);
        assert(ps - cs + cs == ps);
    }
}

/// A changed chunk size or plain size in front of a container is found
/// out: where the bytes 4 to 15 of a container that opens are changed, and
/// nothing else, opening fails with `Error::Integrity`.
pub proof fn lemma_descriptor_tamper_detected(
    key: Seq<u8>,
    container: Seq<u8>,
    tampered: Seq<u8>,
    metadata_only: bool,
    check_path: Seq<u8>,
)
    requires
        opening(key, container, metadata_only, check_path) is Ok,
        tampered.len() == container.len(),
        forall|i: int|
            0 <= i < container.len() && !(4 <= i < DESCRIPTOR_LEN) ==> tampered[i] == container[i],
        exists|i: int| 4 <= i < DESCRIPTOR_LEN && tampered[i] != container[i],
    ensures
        opening(key, tampered, metadata_only, check_path) == Err::<OpenedView, Error>(
            Error::Integrity,
        ),
{
    reveal(descriptor_of);
    let need = metadata_chunk_len(container);
    assert(metadata_chunk_len(tampered) == need);
    assert(tampered.subrange(DESCRIPTOR_LEN as int, LEAD_LEN as int) =~= container.subrange(
        DESCRIPTOR_LEN as int,
        LEAD_LEN as int,
    ));
    assert(tampered.subrange(LEAD_LEN as int, LEAD_LEN + need) =~= container.subrange(
        LEAD_LEN as int,
        LEAD_LEN + need,
    ));
    let i = choose|i: int| 4 <= i < DESCRIPTOR_LEN && tampered[i] != container[i];
    assert(tampered.take(DESCRIPTOR_LEN as int)[i] != container.take(DESCRIPTOR_LEN as int)[i]);
}

/// Whether `pieces` are the blocks of one plaintext: all full, but for the
/// last, which holds at least one byte and at most a chunk.
pub open spec fn pieces_shaped(pieces: Seq<Seq<u8>>, chunk_size: u32) -> bool {
    forall|i: int|
        0 <= i < pieces.len() ==> if i == pieces.len() - 1 {
            0 < (#[trigger] pieces[i]).len() <= chunk_size
        } else {
            pieces[i].len() == chunk_size
        }
}

/// Chunks sealed in order to the end hold the blocks of one plaintext.
pub proof fn lemma_sealed_pieces_shaped(
    t: Seq<Seq<u8>>,
    chunks: Seq<Seq<u8>>,
    pieces: Seq<Seq<u8>>,
    chunk_size: u32,
)
    requires
        chunks_sealed(t, chunks, pieces, chunk_size, true),
    ensures
        pieces_shaped(pieces, chunk_size),
{
    assert forall|i: int| 0 <= i < pieces.len() implies if i == pieces.len() - 1 {
        0 < (#[trigger] pieces[i]).len() <= chunk_size
    } else {
        pieces[i].len() == chunk_size
    } by {
        assert(chunks[i].len() == pieces[i].len() + OVERHEAD);
    }
}

/// The blocks of a plaintext are as many as [`chunk_count`] says, and the
/// last of them, the one that is tagged `Final`, is as long as
/// [`last_chunk_len`] says.
pub proof fn lemma_pieces_counted(pieces: Seq<Seq<u8>>, chunk_size: u32)
    requires
        pieces.len() > 0,
        pieces_shaped(pieces, chunk_size),
    ensures
        pieces.len() == chunk_count(concat(pieces).len(), chunk_size as nat),
        pieces.last().len() == last_chunk_len(concat(pieces).len(), chunk_size as nat),
    decreases pieces.len(),
{
    let rest = pieces.skip(1);
    assert(concat(pieces) == pieces[0] + concat(rest));
    assert(pieces[pieces.len() - 1].len() > 0);
    if pieces.len() == 1 {
        assert(concat(rest) =~= Seq::<u8>::empty());
    } else {
        assert forall|i: int| 0 <= i < rest.len() implies if i == rest.len() - 1 {
            0 < (#[trigger] rest[i]).len() <= chunk_size
        } else {
            rest[i].len() == chunk_size
        } by {
            assert(rest[i] == pieces[i + 1]);
        }
        lemma_pieces_counted(rest, chunk_size);
        assert(rest.last() == pieces.last());
        assert(pieces[0].len() == chunk_size);
        let total = concat(pieces).len();
        assert(total == chunk_size + concat(rest).len());
        assert(concat(rest).len() > 0) by {
            if concat(rest).len() == 0 {
                assert(chunk_count(0, chunk_size as nat) == 0);
            }
        }
    }
}

} // verus!
