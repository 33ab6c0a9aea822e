//! Opening: from a key and the bytes of a container back to the metadata
//! blob and the plaintext, chunk by chunk or all at once.

use crate::cipher::{
    opened, pull_accepts, pull_transcript, stream_init_pull, stream_pull, ChunkTag, PullStream,
    HEADER_LEN, KEY_LEN, OVERHEAD,
};
use crate::codec::{
    decode_descriptor, descriptor_of, dest_metadata, lemma_descriptor_of_lead, mode_is_reg,
    Descriptor, DESCRIPTOR_LEN,
};
use crate::error::Error;
use crate::layout::{
    identity_outcome, join, metadata_chunk_len, metadata_outcome, open_body, opening, read_len,
    step_outcome, OpenedView, LEAD_LEN,
};
use vstd::prelude::*;
use vstd::slice::{slice_subrange, slice_to_vec};

verus! {

/// What opening a container gave.
#[derive(Debug)]
pub struct Opened {
    /// The metadata blob.
    pub metadata: Vec<u8>,
    /// The plaintext; `None` where only the metadata was asked for.
    pub plaintext: Option<Vec<u8>>,
}

impl View for Opened {
    type V = OpenedView;

    open spec fn view(&self) -> OpenedView {
        OpenedView {
            metadata: self.metadata@,
            plaintext: match self.plaintext {
                Some(p) => Some(p@),
                None => None,
            },
        }
    }
}

/// The state of an opening in progress.
pub struct DecryptorView {
    /// The transcript of the cipher stream.
    pub transcript: Seq<Seq<u8>>,
    /// The sixteen descriptor bytes in front of the container.
    pub lead: Seq<u8>,
    /// Plaintext bytes that are still expected.
    pub remaining: u64,
}

impl DecryptorView {
    /// The descriptor in front of the container.
    pub open spec fn descriptor(self) -> Descriptor {
        descriptor_of(self.lead)
    }
}

/// An opening in progress: descriptor and stream header are read, the
/// metadata chunk and the body follow.
pub struct Decryptor {
    stream: PullStream,
    lead: Vec<u8>,
    descriptor: Descriptor,
    remaining: u64,
}

impl View for Decryptor {
    type V = DecryptorView;

    closed spec fn view(&self) -> DecryptorView {
        DecryptorView {
            transcript: pull_transcript(self.stream),
            lead: self.lead@,
            remaining: self.remaining,
        }
    }
}

/// Whether two byte strings are the same.
pub fn bytes_equal(a: &[u8], b: &[u8]) -> (r: bool)
    ensures
        r == (a@ == b@),
{
    if a.len() != b.len() {
        return false;
    }
    let mut i: usize = 0;
    while i < a.len()
        invariant
            a@.len() == b@.len(),
            i <= a@.len(),
            forall|j: int| 0 <= j < i ==> a@[j] == b@[j],
        decreases a@.len() - i,
    {
        if a[i] != b[i] {
            return false;
        }
        i = i + 1;
    }
    assert(a@ =~= b@);
    true
}

/// The `len` bytes of `source` from `pos` on, where it holds that many.
pub fn read_block(source: &[u8], pos: usize, len: u64) -> (r: Option<&[u8]>)
    requires
        pos <= source@.len(),
    ensures
        r is Some <==> pos + len <= source@.len(),
        r matches Some(b) ==> b@ == source@.subrange(pos as int, pos + len),
{
    if (source.len() - pos) as u64 >= len {
        Some(slice_subrange(source, pos, pos + len as usize))
    } else {
        None
    }
}

/// The identity check: the metadata blob must name `check_path` and a
/// regular file.
pub fn check_identity(metadata: &[u8], check_path: &[u8]) -> (r: Result<(), Error>)
    ensures
        r == identity_outcome(metadata@, check_path@),
{
    match dest_metadata(metadata) {
        Err(_) => Err(Error::Format),
        Ok(m) => {
            if bytes_equal(m.path.as_slice(), check_path) && mode_is_reg(m.mode) {
                Ok(())
            } else {
                Err(Error::Validation)
            }
        },
    }
}

/// What the metadata chunk gives, from what the cipher made of it: the
/// metadata behind the sealed descriptor, which must be `lead`.
pub fn metadata_from(lead: &[u8], pulled: Option<(Vec<u8>, ChunkTag)>) -> (r: Result<
    Vec<u8>,
    Error,
>)
    ensures
        metadata_outcome(
            lead@,
            match pulled {
                Some((p, t)) => Some((p@, t)),
                None => None,
            },
        ) == match r {
            Ok(m) => Ok::<Seq<u8>, Error>(m@),
            Err(e) => Err::<Seq<u8>, Error>(e),
        },
{
    match pulled {
        None => Err(Error::Auth),
        Some((p, _)) => {
            if p.len() < DESCRIPTOR_LEN {
                return Err(Error::Integrity);
            }
            let sealed_lead = slice_subrange(p.as_slice(), 0, DESCRIPTOR_LEN);
            if !bytes_equal(sealed_lead, lead) {
                return Err(Error::Integrity);
            }
            let m = slice_to_vec(slice_subrange(p.as_slice(), DESCRIPTOR_LEN, p.len()));
            proof {
                assert(m@ =~= p@.skip(DESCRIPTOR_LEN as int));
            }
            Ok(m)
        },
    }
}

/// What one body chunk does to an opening, from what the cipher made of
/// it: the plaintext it adds and the bytes then still expected.
pub fn body_step(chunk_size: u32, remaining: u64, pulled: Option<(Vec<u8>, ChunkTag)>) -> (r:
    Result<(Vec<u8>, u64), Error>)
    ensures
        step_outcome(
            chunk_size,
            remaining,
            match pulled {
                Some((p, t)) => Some((p@, t)),
                None => None,
            },
        ) == match r {
            Ok((p, left)) => Ok::<(Seq<u8>, u64), Error>((p@, left)),
            Err(e) => Err::<(Seq<u8>, u64), Error>(e),
        },
{
    match pulled {
        None => Err(Error::Auth),
        Some((p, tag)) => {
            if tag == ChunkTag::Final {
                Ok((p, 0))
            } else if p.len() as u64 != chunk_size as u64 {
                Err(Error::Format)
            } else if remaining >= chunk_size as u64 {
                Ok((p, remaining - chunk_size as u64))
            } else {
                Ok((p, 0))
            }
        },
    }
}

/// What starting an opening gives, before the cipher is asked: the lead
/// and the header must have their lengths, then the key its own.
pub open spec fn start_outcome(key: Seq<u8>, lead: Seq<u8>, header: Seq<u8>) -> Result<(), Error> {
    if lead.len() != DESCRIPTOR_LEN || header.len() != HEADER_LEN {
        Err(Error::Format)
    } else if key.len() != KEY_LEN {
        Err(Error::Key)
    } else if !pull_accepts(key, header) {
        Err(Error::Auth)
    } else {
        Ok(())
    }
}

impl Decryptor {
    /// Starts an opening on a stream that the cipher has just made for the
    /// container's header; `lead` is what was read as the descriptor.
    pub fn with_stream(stream: PullStream, lead: &[u8]) -> (r: Result<Decryptor, Error>)
        ensures
            lead@.len() < DESCRIPTOR_LEN <==> r is Err,
            r matches Err(e) ==> e == Error::Format,
            r matches Ok(dec) ==> dec.wf(),
            r matches Ok(dec) ==> dec@ == (DecryptorView {
                transcript: pull_transcript(stream),
                lead: lead@.take(DESCRIPTOR_LEN as int),
                remaining: descriptor_of(lead@).plain_size,
            }),
    {
        match decode_descriptor(lead) {
            Err(e) => Err(e),
            Ok(descriptor) => {
                let ghost shown = lead@;
                let lead = slice_to_vec(slice_subrange(lead, 0, DESCRIPTOR_LEN));
                proof {
                    assert(lead@ =~= shown.take(DESCRIPTOR_LEN as int));
                    assert(lead@.take(DESCRIPTOR_LEN as int) =~= lead@);
                    lemma_descriptor_of_lead(shown, lead@);
                }
                Ok(Decryptor { stream, lead, descriptor, remaining: descriptor.plain_size })
            },
        }
    }

    /// Starts an opening from what was read as the descriptor and as the
    /// stream header. Either of them cut short is a format error; then the
    /// key must have its length; then the cipher must accept key and header.
    pub fn begin(key: &[u8], lead: &[u8], header: &[u8]) -> (r: Result<Decryptor, Error>)
        ensures
            match r {
                Ok(dec) => {
                    &&& start_outcome(key@, lead@, header@) is Ok
                    &&& dec.wf()
                    &&& dec@ == (DecryptorView {
                        transcript: seq![key@, header@],
                        lead: lead@,
                        remaining: descriptor_of(lead@).plain_size,
                    })
                },
                Err(e) => start_outcome(key@, lead@, header@) == Err::<(), Error>(e),
            },
    {
        if lead.len() != DESCRIPTOR_LEN || header.len() != HEADER_LEN {
            return Err(Error::Format);
        }
        if key.len() != KEY_LEN {
            return Err(Error::Key);
        }
        match stream_init_pull(key, header) {
            None => Err(Error::Auth),
            Some(stream) => {
                proof {
                    assert(lead@.take(DESCRIPTOR_LEN as int) =~= lead@);
                }
                Decryptor::with_stream(stream, lead)
            },
        }
    }

    /// The descriptor in front of the container.
    pub fn descriptor(&self) -> (d: Descriptor)
        requires
            self.wf(),
        ensures
            d == self@.descriptor(),
    {
        self.descriptor
    }

    /// Plaintext bytes that are still expected.
    pub fn remaining(&self) -> (r: u64)
        ensures
            r == self@.remaining,
    {
        self.remaining
    }

    /// Whether the fields agree with each other: the descriptor is the one
    /// that the lead spells. Every opening that this module hands out is
    /// well formed, and its methods keep it so.
    pub closed spec fn wf(&self) -> bool {
        &&& self.lead@.len() == DESCRIPTOR_LEN
        &&& self.descriptor == descriptor_of(self.lead@)
    }

    /// Length of the sealed metadata chunk, which is read next.
    pub fn metadata_chunk_len(&self) -> (r: u64)
        requires
            self.wf(),
        ensures
            r == metadata_chunk_len(self@.lead),
    {
        DESCRIPTOR_LEN as u64 + self.descriptor.metadata_size as u64 + OVERHEAD as u64
    }

    /// Most bytes that one body chunk holds, which is what to read next.
    pub fn next_read_len(&self) -> (r: u64)
        requires
            self.wf(),
        ensures
            r == self@.descriptor().chunk_size + OVERHEAD,
    {
        self.descriptor.chunk_size as u64 + OVERHEAD as u64
    }

    /// Opens the metadata chunk and returns the metadata blob.
    ///
    /// A chunk of another length than [`Decryptor::metadata_chunk_len`]
    /// is a format error: the container is cut short. A chunk that does
    /// not authenticate is `Error::Auth`; a sealed descriptor that is not
    /// the one in front of the container is `Error::Integrity`.
    pub fn open_metadata(&mut self, chunk: &[u8]) -> (r: Result<Vec<u8>, Error>)
        requires
            old(self).wf(),
        ensures
            final(self).wf(),
            chunk@.len() != metadata_chunk_len(old(self)@.lead) ==> (r matches Err(e) && e
                == Error::Format) && final(self)@ == old(self)@,
            chunk@.len() == metadata_chunk_len(old(self)@.lead) ==> {
                let before = old(self)@;
                &&& metadata_outcome(before.lead, opened(before.transcript, chunk@)) == match r {
                    Ok(m) => Ok::<Seq<u8>, Error>(m@),
                    Err(e) => Err::<Seq<u8>, Error>(e),
                }
                &&& r is Ok ==> final(self)@ == (DecryptorView {
                    transcript: before.transcript.push(chunk@),
                    lead: before.lead,
                    remaining: before.remaining,
                })
            },
    {
        if chunk.len() as u64 != self.metadata_chunk_len() {
            return Err(Error::Format);
        }
        let pulled = stream_pull(&mut self.stream, chunk);
        metadata_from(self.lead.as_slice(), pulled)
    }

    /// Opens the next body chunk, as it was read, and returns the plaintext
    /// to write.
    ///
    /// No bytes read while bytes are expected means that the container is
    /// cut short: a format error, and nothing changes. For the rest see
    /// [`step_outcome`].
    pub fn open_block(&mut self, chunk: &[u8]) -> (r: Result<Vec<u8>, Error>)
        requires
            old(self).wf(),
            old(self)@.remaining > 0,
        ensures
            final(self).wf(),
            chunk@.len() == 0 ==> (r matches Err(e) && e == Error::Format) && final(self)@ == old(
                self,
            )@,
            chunk@.len() > 0 ==> {
                let before = old(self)@;
                match step_outcome(
                    before.descriptor().chunk_size,
                    before.remaining,
                    opened(before.transcript, chunk@),
                ) {
                    Ok((p, left)) => {
                        &&& r matches Ok(v)
                        &&& v@ == p
                        &&& final(self)@ == (DecryptorView {
                            transcript: before.transcript.push(chunk@),
                            lead: before.lead,
                            remaining: left,
                        })
                    },
                    Err(e) => r matches Err(f) && f == e,
                }
            },
    {
        if chunk.len() == 0 {
            return Err(Error::Format);
        }
        let pulled = stream_pull(&mut self.stream, chunk);
        match body_step(self.descriptor.chunk_size, self.remaining, pulled) {
            Err(e) => Err(e),
            Ok((p, left)) => {
                self.remaining = left;
                Ok(p)
            },
        }
    }
}

/// Opens a container under `key`.
///
/// With `metadata_only` the body is not touched and no plaintext comes
/// back. A `check_path` that is not empty must be the path that the
/// metadata names, for a regular file. The result is [`opening`] of the
/// arguments: the first check that fails decides the error.
pub fn decrypt(key: &[u8], container: &[u8], metadata_only: bool, check_path: &[u8]) -> (r: Result<
    Opened,
    Error,
>)
    ensures
        opening(key@, container@, metadata_only, check_path@) == match r {
            Ok(o) => Ok::<OpenedView, Error>(o@),
            Err(e) => Err::<OpenedView, Error>(e),
        },
{
    if container.len() < LEAD_LEN {
        return Err(Error::Format);
    }
    let lead = slice_subrange(container, 0, DESCRIPTOR_LEN);
    let header = slice_subrange(container, DESCRIPTOR_LEN, LEAD_LEN);
    let ghost whole = container@;
    proof {
        assert(lead@ =~= whole.take(DESCRIPTOR_LEN as int));
        assert(lead@.take(DESCRIPTOR_LEN as int) =~= lead@);
        lemma_descriptor_of_lead(whole, lead@);
    }
    let mut dec = match Decryptor::begin(key, lead, header) {
        Err(e) => {
            return Err(e);
        },
        Ok(dec) => dec,
    };
    let need = dec.metadata_chunk_len();
    let first = match read_block(container, LEAD_LEN, need) {
        None => {
            return Err(Error::Format);
        },
        Some(first) => first,
    };
    let metadata = match dec.open_metadata(first) {
        Err(e) => {
            return Err(e);
        },
        Ok(metadata) => metadata,
    };
    if metadata_only {
        return Ok(Opened { metadata, plaintext: None });
    }
    if check_path.len() > 0 {
        match check_identity(metadata.as_slice(), check_path) {
            Err(e) => {
                return Err(e);
            },
            Ok(_) => {},
        }
    }
    let chunk_size = dec.descriptor().chunk_size;
    let plain_size = dec.remaining();
    let start = LEAD_LEN + need as usize;
    let ghost t = dec@.transcript;
    let mut pos: usize = start;
    let mut plain: Vec<u8> = Vec::new();
    let ghost body_outcome = open_body(t, whole.skip(start as int), chunk_size, plain_size);
    let ghost wanted = opening(key@, whole, metadata_only, check_path@);
    proof {
        assert(seq![key@, header@].push(first@) =~= t);
        assert(wanted == match body_outcome {
            Ok(p) => Ok::<OpenedView, Error>(
                OpenedView { metadata: metadata@, plaintext: Some(p) },
            ),
            Err(e) => Err::<OpenedView, Error>(e),
        });
        match open_body(t, whole.skip(pos as int), chunk_size, plain_size) {
            Ok(b) => {
                assert(plain@ + b =~= b);
            },
            Err(e) => {},
        }
    }
    while dec.remaining() > 0
        invariant
            dec.wf(),
            whole == container@,
            wanted == opening(key@, container@, metadata_only, check_path@),
            body_outcome == open_body(t, whole.skip(start as int), chunk_size, plain_size),
            wanted == match body_outcome {
                Ok(p) => Ok::<OpenedView, Error>(
                    OpenedView { metadata: metadata@, plaintext: Some(p) },
                ),
                Err(e) => Err::<OpenedView, Error>(e),
            },
            start <= pos <= whole.len(),
            dec@.descriptor().chunk_size == chunk_size,
            open_body(t, whole.skip(start as int), chunk_size, plain_size) == join(
                plain@,
                open_body(dec@.transcript, whole.skip(pos as int), chunk_size, dec@.remaining),
            ),
        decreases whole.len() - pos,
    {
        let want = dec.next_read_len();
        let left = container.len() - pos;
        let n = if left as u64 <= want { left } else { want as usize };
        let chunk = slice_subrange(container, pos, pos + n);
        let ghost before = dec@;
        let ghost rest = whole.skip(pos as int);
        proof {
            assert(n == read_len(rest.len(), chunk_size));
            assert(rest.take(n as int) =~= chunk@);
            assert(rest.skip(n as int) =~= whole.skip(pos + n));
        }
        match dec.open_block(chunk) {
            Err(e) => {
                proof {
                    assert(open_body(before.transcript, rest, chunk_size, before.remaining)
                        == Err::<Seq<u8>, Error>(e));
                }
                return Err(e);
            },
            Ok(p) => {
                let ghost plain_before = plain@;
                plain.extend_from_slice(p.as_slice());
                proof {
                    let tail = open_body(
                        dec@.transcript,
                        whole.skip(pos + n),
                        chunk_size,
                        dec@.remaining,
                    );
                    assert(open_body(before.transcript, rest, chunk_size, before.remaining) == join(
                        p@,
                        tail,
                    ));
                    assert(join(plain_before, join(p@, tail)) == join(plain_before + p@, tail)) by {
                        match tail {
                            Ok(b) => {
                                assert(plain_before + (p@ + b) =~= plain_before + p@ + b);
                            },
                            Err(e) => {},
                        }
                    }
                    assert(plain@ == plain_before + p@);
                    assert(body_outcome == join(plain_before, join(p@, tail)));
                    assert(body_outcome == join(plain@, tail));
                }
                pos = pos + n;
            },
        }
    }
    proof {
        assert(plain@ + Seq::<u8>::empty() =~= plain@);
    }
    Ok(Opened { metadata, plaintext: Some(plain) })
}

} // verus!
