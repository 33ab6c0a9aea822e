//! Sealing: from a key, a metadata blob and the plaintext to the bytes of a
//! container, block by block or all at once.

use crate::cipher::{
    opened, pull_accepts, push_transcript, sealed, stream_init_push, stream_push, ChunkTag,
    PushStream, KEY_LEN, OVERHEAD,
};
use crate::codec::{
    descriptor_bytes, encode_descriptor, lemma_descriptor_of_lead, lemma_descriptor_round_trip,
    Descriptor, DESCRIPTOR_LEN,
};
use crate::error::Error;
use crate::laws::{
    chunks_sealed, lemma_chunks_sealed_push, lemma_concat_push, lemma_round_trip,
    lemma_sealed_chunks_open, sealed_in_chunks,
};
use crate::layout::{
    chunk_count, concat, join, metadata_chunk_len, open_body, opening, seal_body, OpenedView,
    LEAD_LEN,
};
use vstd::prelude::*;
use vstd::slice::slice_subrange;

verus! {

/// Whether a metadata length and a chunk size are below 2^32.
pub open spec fn sizes_ok(metadata_len: nat, chunk_size: nat) -> bool {
    metadata_len <= u32::MAX && chunk_size <= u32::MAX
}

/// The tag of the next block when `remaining` bytes are still to be
/// sealed: the block that can hold all of them is the last.
pub open spec fn tag_for(remaining: u64, chunk_size: u32) -> ChunkTag {
    if remaining <= chunk_size {
        ChunkTag::Final
    } else {
        ChunkTag::Message
    }
}

/// How many bytes the next block is asked to hold.
pub open spec fn block_len_for(remaining: u64, chunk_size: u32) -> nat {
    if remaining <= chunk_size {
        remaining as nat
    } else {
        chunk_size as nat
    }
}

/// What sealing the metadata chunk makes of a fresh stream: the bytes that
/// open the container, or the refusal of the cipher.
pub open spec fn sealed_prefix(
    transcript: Seq<Seq<u8>>,
    header: Seq<u8>,
    metadata: Seq<u8>,
    d: Descriptor,
) -> Result<Seq<u8>, Error> {
    match sealed(transcript, descriptor_bytes(d) + metadata, ChunkTag::Message) {
        Some(c) => Ok(descriptor_bytes(d) + header + c),
        None => Err(Error::Engine),
    }
}

/// The bytes of a whole container: what sealing `metadata` and `plaintext`
/// makes of a fresh stream with transcript `t` and header `header`.
pub open spec fn sealing(
    t: Seq<Seq<u8>>,
    header: Seq<u8>,
    metadata: Seq<u8>,
    plaintext: Seq<u8>,
    d: Descriptor,
) -> Result<Seq<u8>, Error> {
    match sealed(t, descriptor_bytes(d) + metadata, ChunkTag::Message) {
        Some(c) => join(
            descriptor_bytes(d) + header + c,
            seal_body(t.push(c), plaintext, d.chunk_size),
        ),
        None => Err(Error::Engine),
    }
}

/// Whether `prefix` opens a container for `metadata` under `key`, on a
/// header that the cipher chose, and `enc` is the sealing that goes on
/// from there.
pub open spec fn begun(
    key: Seq<u8>,
    metadata: Seq<u8>,
    d: Descriptor,
    prefix: Seq<u8>,
    enc: EncryptorView,
) -> bool {
    let header = prefix.subrange(DESCRIPTOR_LEN as int, LEAD_LEN as int);
    let first = prefix.skip(LEAD_LEN as int);
    let t = seq![key, header];
    &&& prefix.len() == LEAD_LEN + DESCRIPTOR_LEN + metadata.len() + OVERHEAD
    &&& prefix.take(DESCRIPTOR_LEN as int) == descriptor_bytes(d)
    &&& pull_accepts(key, header)
    &&& sealed(t, descriptor_bytes(d) + metadata, ChunkTag::Message) == Some(first)
    &&& opened(t, first) == Some((descriptor_bytes(d) + metadata, ChunkTag::Message))
    &&& enc == (EncryptorView {
        transcript: t.push(first),
        chunk_size: d.chunk_size,
        remaining: d.plain_size,
    })
}

/// The state of a sealing in progress.
pub struct EncryptorView {
    /// The transcript of the cipher stream.
    pub transcript: Seq<Seq<u8>>,
    /// Plaintext bytes in each body chunk but the last.
    pub chunk_size: u32,
    /// Plaintext bytes that are still to be sealed.
    pub remaining: u64,
}

/// A sealing in progress: the metadata chunk is sealed, the body follows
/// block by block.
pub struct Encryptor {
    stream: PushStream,
    chunk_size: u32,
    remaining: u64,
}

impl View for Encryptor {
    type V = EncryptorView;

    closed spec fn view(&self) -> EncryptorView {
        EncryptorView {
            transcript: push_transcript(self.stream),
            chunk_size: self.chunk_size,
            remaining: self.remaining,
        }
    }
}

/// Refuses a metadata blob or a chunk size of 2^32 or more.
pub fn check_sizes(metadata_len: usize, chunk_size: usize) -> (r: Result<(), Error>)
    ensures
        sizes_ok(metadata_len as nat, chunk_size as nat) <==> r is Ok,
        r matches Err(e) ==> e == Error::Validation,
{
    if metadata_len as u64 > u32::MAX as u64 || chunk_size as u64 > u32::MAX as u64 {
        Err(Error::Validation)
    } else {
        Ok(())
    }
}

/// The tag for the next block: see [`tag_for`].
pub fn next_tag(remaining: u64, chunk_size: u32) -> (t: ChunkTag)
    ensures
        t == tag_for(remaining, chunk_size),
{
    if remaining <= chunk_size as u64 {
        ChunkTag::Final
    } else {
        ChunkTag::Message
    }
}

impl Encryptor {
    /// Starts a sealing on a stream that the cipher has just made, with the
    /// header it gave: seals descriptor and metadata as the first chunk and
    /// returns the bytes that open the container.
    pub fn with_stream(
        stream: PushStream,
        header: &[u8],
        metadata: &[u8],
        chunk_size: u32,
        plain_size: u64,
    ) -> (r: Result<(Encryptor, Vec<u8>), Error>)
        ensures
            metadata@.len() > u32::MAX ==> (r matches Err(e) && e == Error::Validation),
            metadata@.len() <= u32::MAX ==> {
                let d = Descriptor { metadata_size: metadata@.len() as u32, chunk_size, plain_size };
                let first = descriptor_bytes(d) + metadata@;
                let t = push_transcript(stream);
                match r {
                    Ok((enc, prefix)) => {
                        &&& sealed_prefix(t, header@, metadata@, d) == Ok::<Seq<u8>, Error>(prefix@)
                        &&& prefix@.len() == DESCRIPTOR_LEN + header@.len() + first.len()
                            + OVERHEAD
                        &&& opened(t, prefix@.skip(DESCRIPTOR_LEN + header@.len())) == Some(
                            (first, ChunkTag::Message),
                        )
                        &&& enc@ == (EncryptorView {
                            transcript: t.push(prefix@.skip(DESCRIPTOR_LEN + header@.len())),
                            chunk_size,
                            remaining: plain_size,
                        })
                    },
                    Err(e) => sealed_prefix(t, header@, metadata@, d) == Err::<Seq<u8>, Error>(e),
                }
            },
    {
        if metadata.len() as u64 > u32::MAX as u64 {
            return Err(Error::Validation);
        }
        let d = Descriptor { metadata_size: metadata.len() as u32, chunk_size, plain_size };
        let mut out = encode_descriptor(d);
        let mut first = encode_descriptor(d);
        first.extend_from_slice(metadata);
        let mut stream = stream;
        let ghost t = push_transcript(stream);
        assert(first@ =~= descriptor_bytes(d) + metadata@);
        match stream_push(&mut stream, first.as_slice(), ChunkTag::Message) {
            None => Err(Error::Engine),
            Some(c) => {
                out.extend_from_slice(header);
                out.extend_from_slice(c.as_slice());
                proof {
                    assert(out@ =~= descriptor_bytes(d) + header@ + c@);
                    assert(out@.skip(DESCRIPTOR_LEN + header@.len()) =~= c@);
                }
                Ok((Encryptor { stream, chunk_size, remaining: plain_size }, out))
            },
        }
    }

    /// Plaintext bytes that are still to be sealed.
    pub fn remaining(&self) -> (r: u64)
        ensures
            r == self@.remaining,
    {
        self.remaining
    }

    /// Plaintext bytes in each body chunk but the last.
    pub fn chunk_size(&self) -> (r: u32)
        ensures
            r == self@.chunk_size,
    {
        self.chunk_size
    }

    /// How many bytes to read for the next block: a full chunk, or what is
    /// left where that is less.
    pub fn next_block_len(&self) -> (r: u32)
        ensures
            r == block_len_for(self@.remaining, self@.chunk_size),
    {
        if self.remaining <= self.chunk_size as u64 {
            self.remaining as u32
        } else {
            self.chunk_size
        }
    }

    /// Starts a sealing: checks the sizes, then the key, has the cipher
    /// start a stream, and seals descriptor and metadata as the first
    /// chunk. Returns the sealing and the bytes that open the container:
    /// descriptor, stream header, metadata chunk.
    ///
    /// The cipher draws the header at random, so two calls differ. A
    /// refusal of the cipher is `Error::Engine`.
    pub fn begin(key: &[u8], metadata: &[u8], chunk_size: usize, plain_size: u64) -> (r: Result<
        (Encryptor, Vec<u8>),
        Error,
    >)
        ensures
            !sizes_ok(metadata@.len(), chunk_size as nat) ==> (r matches Err(e) && e
                == Error::Validation),
            sizes_ok(metadata@.len(), chunk_size as nat) && key@.len() != KEY_LEN ==> (r matches Err(
                e,
            ) && e == Error::Key),
            r matches Err(e) ==> {
                &&& e == Error::Validation || e == Error::Key || e == Error::Engine
                &&& e == Error::Validation ==> !sizes_ok(metadata@.len(), chunk_size as nat)
                &&& e == Error::Key ==> key@.len() != KEY_LEN
            },
            r matches Ok((enc, prefix)) ==> begun(
                key@,
                metadata@,
                Descriptor {
                    metadata_size: metadata@.len() as u32,
                    chunk_size: chunk_size as u32,
                    plain_size,
                },
                prefix@,
                enc@,
            ),
    {
        match check_sizes(metadata.len(), chunk_size) {
            Err(e) => {
                return Err(e);
            },
            Ok(_) => {},
        }
        if key.len() != KEY_LEN {
            return Err(Error::Key);
        }
        match stream_init_push(key) {
            None => Err(Error::Engine),
            Some((stream, header)) => {
                let ghost d = Descriptor {
                    metadata_size: metadata@.len() as u32,
                    chunk_size: chunk_size as u32,
                    plain_size,
                };
                let r = Encryptor::with_stream(
                    stream,
                    header.as_slice(),
                    metadata,
                    chunk_size as u32,
                    plain_size,
                );
                proof {
                    lemma_descriptor_round_trip(d);
                    match &r {
                        Ok((enc, prefix)) => {
                            let first = prefix@.skip(LEAD_LEN as int);
                            assert(prefix@ == descriptor_bytes(d) + header@ + first) by {
                                let c = sealed(
                                    seq![key@, header@],
                                    descriptor_bytes(d) + metadata@,
                                    ChunkTag::Message,
                                )->Some_0;
                                assert(prefix@ == descriptor_bytes(d) + header@ + c);
                                assert(first =~= c);
                            }
                            assert(prefix@.subrange(DESCRIPTOR_LEN as int, LEAD_LEN as int)
                                =~= header@);
                            assert(prefix@.take(DESCRIPTOR_LEN as int) =~= descriptor_bytes(d));
                            let t = seq![key@, header@];
                            assert(prefix@.len() == LEAD_LEN + DESCRIPTOR_LEN + metadata@.len()
                                + OVERHEAD);
                            assert(pull_accepts(key@, header@));
                            assert(sealed(t, descriptor_bytes(d) + metadata@, ChunkTag::Message)
                                == Some(first));
                            assert(opened(t, first) == Some(
                                (descriptor_bytes(d) + metadata@, ChunkTag::Message),
                            ));
                            assert(enc@.transcript == t.push(first));
                            assert(enc@.chunk_size == d.chunk_size);
                            assert(enc@.remaining == d.plain_size);
                        },
                        Err(e) => {},
                    }
                }
                r
            },
        }
    }

    /// Seals the next block of plaintext, as the source gave it, and
    /// returns the chunk to write.
    ///
    /// An empty block while bytes remain means that the source is cut
    /// short: `Error::Io`, and nothing changes. The block is tagged
    /// `Final` where the bytes that remained before it fit one chunk. A
    /// refusal of the cipher is `Error::Engine`: it refuses a block after
    /// one that it sealed as `Final`.
    pub fn seal_block(&mut self, block: &[u8]) -> (r: Result<Vec<u8>, Error>)
        requires
            old(self)@.remaining > 0,
            block@.len() <= old(self)@.remaining,
        ensures
            block@.len() == 0 ==> (r matches Err(e) && e == Error::Io) && final(self)@ == old(
                self,
            )@,
            block@.len() > 0 ==> {
                let before = old(self)@;
                let tag = tag_for(before.remaining, before.chunk_size);
                match r {
                    Ok(c) => {
                        &&& sealed(before.transcript, block@, tag) == Some(c@)
                        &&& c@.len() == block@.len() + OVERHEAD
                        &&& opened(before.transcript, c@) == Some((block@, tag))
                        &&& final(self)@ == (EncryptorView {
                            transcript: before.transcript.push(c@),
                            chunk_size: before.chunk_size,
                            remaining: (before.remaining - block@.len()) as u64,
                        })
                    },
                    Err(e) => e == Error::Engine && sealed(before.transcript, block@, tag) is None,
                }
            },
    {
        if block.len() == 0 {
            return Err(Error::Io);
        }
        let tag = next_tag(self.remaining, self.chunk_size);
        match stream_push(&mut self.stream, block, tag) {
            None => Err(Error::Engine),
            Some(c) => {
                self.remaining = self.remaining - block.len() as u64;
                Ok(c)
            },
        }
    }

    /// Seals a whole plaintext behind `prefix`, block by block, and returns
    /// the finished container.
    pub fn seal_all(self, prefix: Vec<u8>, plaintext: &[u8]) -> (r: Result<Vec<u8>, Error>)
        requires
            self@.remaining == plaintext@.len(),
        ensures
            join(prefix@, seal_body(self@.transcript, plaintext@, self@.chunk_size)) == match r {
                Ok(c) => Ok::<Seq<u8>, Error>(c@),
                Err(e) => Err::<Seq<u8>, Error>(e),
            },
            r matches Ok(c) ==> {
                &&& c@.len() == prefix@.len() + plaintext@.len() + OVERHEAD * chunk_count(
                    plaintext@.len(),
                    self@.chunk_size as nat,
                )
                &&& sealed_in_chunks(
                    self@.transcript,
                    c@.skip(prefix@.len() as int),
                    plaintext@,
                    self@.chunk_size,
                )
                &&& open_body(
                    self@.transcript,
                    c@.skip(prefix@.len() as int),
                    self@.chunk_size,
                    plaintext@.len() as u64,
                ) == Ok::<Seq<u8>, Error>(plaintext@)
            },
    {
        let mut enc = self;
        let mut out = prefix;
        let mut pos: usize = 0;
        let total = plaintext.len();
        let ghost t = self@.transcript;
        let ghost cs = self@.chunk_size;
        let ghost whole = plaintext@;
        let ghost mut chunks: Seq<Seq<u8>> = Seq::empty();
        let ghost mut pieces: Seq<Seq<u8>> = Seq::empty();
        proof {
            assert(t + chunks =~= t);
            assert(concat(chunks) =~= Seq::<u8>::empty());
            assert(concat(pieces) =~= Seq::<u8>::empty());
            assert(out@ =~= prefix@ + concat(chunks));
            assert(whole.skip(0) =~= whole);
            assert(whole.take(0) =~= Seq::<u8>::empty());
        }
        while enc.remaining() > 0
            invariant
                t == self@.transcript,
                cs == self@.chunk_size,
                whole == plaintext@,
                whole.len() == total,
                pos <= whole.len(),
                enc@.remaining == whole.len() - pos,
                enc@.chunk_size == cs,
                enc@.transcript == t + chunks,
                out@ == prefix@ + concat(chunks),
                out@.len() == prefix@.len() + pos + OVERHEAD * chunks.len(),
                concat(pieces) == whole.take(pos as int),
                chunks_sealed(t, chunks, pieces, cs, enc@.remaining == 0),
                chunks.len() + chunk_count(enc@.remaining as nat, cs as nat) == chunk_count(
                    whole.len(),
                    cs as nat,
                ),
                join(prefix@, seal_body(t, whole, cs)) == join(
                    out@,
                    seal_body(enc@.transcript, whole.skip(pos as int), cs),
                ),
            decreases enc@.remaining,
        {
            let n = enc.next_block_len() as usize;
            let block = slice_subrange(plaintext, pos, pos + n);
            let ghost before = enc@;
            let ghost rest = whole.skip(pos as int);
            let ghost tag = tag_for(before.remaining, cs);
            proof {
                assert(rest.take(n as int) =~= block@);
                assert(rest.skip(n as int) =~= whole.skip(pos + n));
            }
            match enc.seal_block(block) {
                Err(e) => {
                    proof {
                        assert(rest.len() > 0);
                        if block@.len() == 0 {
                            assert(cs == 0);
                            assert(e == Error::Io);
                        } else {
                            assert(cs > 0);
                            assert(sealed(before.transcript, rest.take(n as int), tag) is None);
                        }
                        assert(seal_body(before.transcript, rest, cs) == Err::<Seq<u8>, Error>(e));
                        assert(join(out@, seal_body(before.transcript, rest, cs)) == Err::<
                            Seq<u8>,
                            Error,
                        >(e));
                    }
                    return Err(e);
                },
                Ok(c) => {
                    out.extend_from_slice(c.as_slice());
                    proof {
                        assert(out@ =~= prefix@ + concat(chunks) + c@);
                        let finished = before.remaining <= cs;
                        lemma_chunks_sealed_push(t, chunks, pieces, cs, c@, block@, finished);
                        lemma_concat_push(chunks, c@);
                        lemma_concat_push(pieces, block@);
                        assert(t + chunks.push(c@) =~= (t + chunks).push(c@));
                        assert(whole.take(pos as int) + block@ =~= whole.take(pos + n));
                        assert(out@ =~= prefix@ + concat(chunks.push(c@)));
                        let tail = seal_body(before.transcript.push(c@), whole.skip(pos + n), cs);
                        assert(seal_body(before.transcript, rest, cs) == join(c@, tail));
                        assert(join(prefix@ + concat(chunks), join(c@, tail)) == join(
                            prefix@ + concat(chunks) + c@,
                            tail,
                        )) by {
                            match tail {
                                Ok(b) => {
                                    assert(prefix@ + concat(chunks) + (c@ + b) =~= prefix@
                                        + concat(chunks) + c@ + b);
                                },
                                Err(e) => {},
                            }
                        }
                        assert(OVERHEAD * (chunks.len() + 1) == OVERHEAD * chunks.len() + OVERHEAD);
                        chunks = chunks.push(c@);
                        pieces = pieces.push(block@);
                    }
                    pos = pos + n;
                },
            }
        }
        proof {
            assert(whole.take(pos as int) =~= whole);
            assert(whole.skip(pos as int) =~= Seq::<u8>::empty());
            assert(out@ + Seq::<u8>::empty() =~= out@);
            assert(out@.skip(prefix@.len() as int) =~= concat(chunks));
            lemma_sealed_chunks_open(t, chunks, pieces, cs);
            assert(chunks_sealed(t, chunks, pieces, cs, true));
        }
        Ok(out)
    }
}

/// Seals `plaintext` and `metadata` under `key` into the bytes of a
/// container, with body chunks of `chunk_size` plaintext bytes.
///
/// The sizes are checked first, then the key. A plaintext that is not
/// empty cannot be read in blocks of no bytes: `Error::Io`. A container
/// that comes out opens, under the same key, to `metadata` and `plaintext`.
pub fn encrypt(key: &[u8], plaintext: &[u8], metadata: &[u8], chunk_size: usize) -> (r: Result<
    Vec<u8>,
    Error,
>)
    ensures
        !sizes_ok(metadata@.len(), chunk_size as nat) ==> (r matches Err(e) && e
            == Error::Validation),
        sizes_ok(metadata@.len(), chunk_size as nat) && key@.len() != KEY_LEN ==> (r matches Err(e)
            && e == Error::Key),
        r matches Err(e) ==> {
            &&& e == Error::Validation || e == Error::Key || e == Error::Engine || e == Error::Io
            &&& e == Error::Validation ==> !sizes_ok(metadata@.len(), chunk_size as nat)
            &&& e == Error::Key ==> key@.len() != KEY_LEN
            &&& e == Error::Io ==> chunk_size == 0 && plaintext@.len() > 0
        },
        r matches Ok(c) ==> {
            let d = Descriptor {
                metadata_size: metadata@.len() as u32,
                chunk_size: chunk_size as u32,
                plain_size: plaintext@.len() as u64,
            };
            let header = c@.subrange(DESCRIPTOR_LEN as int, LEAD_LEN as int);
            &&& chunk_size > 0 || plaintext@.len() == 0
            &&& sealing(seq![key@, header], header, metadata@, plaintext@, d) == Ok::<
                Seq<u8>,
                Error,
            >(c@)
            &&& c@.len() == LEAD_LEN + DESCRIPTOR_LEN + metadata@.len() + OVERHEAD
                + plaintext@.len() + OVERHEAD * chunk_count(plaintext@.len(), chunk_size as nat)
            &&& sealed_in_chunks(
                seq![key@, header, c@.subrange(LEAD_LEN as int, LEAD_LEN + metadata_chunk_len(c@))],
                c@.skip(LEAD_LEN + metadata_chunk_len(c@)),
                plaintext@,
                chunk_size as u32,
            )
            &&& opening(key@, c@, false, Seq::empty()) == Ok::<OpenedView, Error>(
                OpenedView { metadata: metadata@, plaintext: Some(plaintext@) },
            )
        },
{
    let plain_size = plaintext.len() as u64;
    match Encryptor::begin(key, metadata, chunk_size, plain_size) {
        Err(e) => Err(e),
        Ok((enc, prefix)) => {
            let ghost d = Descriptor {
                metadata_size: metadata@.len() as u32,
                chunk_size: chunk_size as u32,
                plain_size,
            };
            let ghost lead = prefix@;
            let ghost t = enc@.transcript;
            let r = enc.seal_all(prefix, plaintext);
            proof {
                match &r {
                    Ok(c) => {
                        let header = lead.subrange(DESCRIPTOR_LEN as int, LEAD_LEN as int);
                        let first = lead.skip(LEAD_LEN as int);
                        let body = c@.skip(lead.len() as int);
                        lemma_descriptor_round_trip(d);
                        assert(lead =~= descriptor_bytes(d) + header + first);
                        assert(c@ =~= descriptor_bytes(d) + header + first + body);
                        assert(seq![key@, header].push(first) =~= seq![key@, header, first]);
                        lemma_round_trip(
                            key@,
                            header,
                            metadata@,
                            plaintext@,
                            d,
                            first,
                            ChunkTag::Message,
                            body,
                        );
                        assert(c@.subrange(DESCRIPTOR_LEN as int, LEAD_LEN as int) =~= header);
                        assert(c@.take(DESCRIPTOR_LEN as int) =~= descriptor_bytes(d));
                        assert(descriptor_bytes(d).take(DESCRIPTOR_LEN as int) =~= descriptor_bytes(
                            d,
                        ));
                        lemma_descriptor_of_lead(c@, descriptor_bytes(d));
                        assert(metadata_chunk_len(c@) == first.len());
                        assert(c@.subrange(LEAD_LEN as int, LEAD_LEN + first.len()) =~= first);
                        if chunk_size == 0 && plaintext@.len() > 0 {
                            assert(seal_body(t, plaintext@, d.chunk_size) is Err);
                        }
                    },
                    Err(e) => {
                        lemma_seal_body_errors(t, plaintext@, d.chunk_size);
                    },
                }
            }
            r
        },
    }
}

/// Sealing a body fails only where the cipher refuses a block, or where
/// blocks hold no bytes and the source is therefore cut short.
pub proof fn lemma_seal_body_errors(t: Seq<Seq<u8>>, rest: Seq<u8>, chunk_size: u32)
    ensures
        seal_body(t, rest, chunk_size) matches Err(e) ==> {
            &&& e == Error::Io || e == Error::Engine
            &&& e == Error::Io ==> chunk_size == 0 && rest.len() > 0
        },
    decreases rest.len(),
{
    if rest.len() > 0 && chunk_size > 0 {
        let last = rest.len() <= chunk_size;
        let n = if last { rest.len() as int } else { chunk_size as int };
        let tag = if last { ChunkTag::Final } else { ChunkTag::Message };
        match sealed(t, rest.take(n), tag) {
            None => {},
            Some(c) => {
                lemma_seal_body_errors(t.push(c), rest.skip(n), chunk_size);
            },
        }
    }
}

} // verus!
