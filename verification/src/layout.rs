//! What a container is, as mathematics: how its bytes are cut into chunks
//! and what opening them in order gives.

use crate::cipher::{opened, pull_accepts, sealed, ChunkTag, HEADER_LEN, KEY_LEN, OVERHEAD};
use crate::codec::{
    descriptor_of, is_regular, le32, DESCRIPTOR_LEN, PATH_METADATA_FIXED_LEN,
};
use crate::error::Error;
use vstd::prelude::*;

verus! {

/// Offset of the metadata chunk in a container.
pub const LEAD_LEN: usize = DESCRIPTOR_LEN + HEADER_LEN;

/// `front` before the bytes of `r`, where `r` has bytes.
pub open spec fn join(front: Seq<u8>, r: Result<Seq<u8>, Error>) -> Result<Seq<u8>, Error> {
    match r {
        Ok(b) => Ok(front + b),
        Err(e) => Err(e),
    }
}

/// The byte strings of `parts`, one after the other.
pub open spec fn concat(parts: Seq<Seq<u8>>) -> Seq<u8>
    decreases parts.len(),
{
    if parts.len() == 0 {
        Seq::empty()
    } else {
        parts[0] + concat(parts.skip(1))
    }
}

/// How many body chunks a plaintext of `plain_size` bytes is cut into.
pub open spec fn chunk_count(plain_size: nat, chunk_size: nat) -> nat
    decreases plain_size,
{
    if plain_size == 0 || chunk_size == 0 {
        0
    } else if plain_size <= chunk_size {
        1
    } else {
        1 + chunk_count((plain_size - chunk_size) as nat, chunk_size)
    }
}

/// How many plaintext bytes the chunk tagged `Final` holds.
pub open spec fn last_chunk_len(plain_size: nat, chunk_size: nat) -> nat
    decreases plain_size,
{
    if plain_size <= chunk_size || chunk_size == 0 {
        plain_size
    } else {
        last_chunk_len((plain_size - chunk_size) as nat, chunk_size)
    }
}

/// The body of a container: `rest` sealed in blocks of `chunk_size` bytes
/// on a stream with transcript `t`, the block that holds the end tagged
/// `Final`. A chunk size of zero gets nowhere with bytes left: the source
/// then counts as cut short.
pub open spec fn seal_body(t: Seq<Seq<u8>>, rest: Seq<u8>, chunk_size: u32) -> Result<
    Seq<u8>,
    Error,
>
    decreases rest.len(),
{
    if rest.len() == 0 {
        Ok(Seq::empty())
    } else if chunk_size == 0 {
        Err(Error::Io)
    } else {
        let last = rest.len() <= chunk_size;
        let n = if last { rest.len() as int } else { chunk_size as int };
        let tag = if last { ChunkTag::Final } else { ChunkTag::Message };
        match sealed(t, rest.take(n), tag) {
            None => Err(Error::Engine),
            Some(c) => join(c, seal_body(t.push(c), rest.skip(n), chunk_size)),
        }
    }
}

/// What one body chunk does to an opening, given what the cipher made of
/// it: the plaintext it adds and the bytes then still expected.
///
/// A chunk that does not authenticate ends the opening. A `Final` chunk is
/// the end of the stream whatever the count says. Any other chunk must be
/// full, and takes `chunk_size` off the count, which stops at zero.
pub open spec fn step_outcome(
    chunk_size: u32,
    remaining: u64,
    pulled: Option<(Seq<u8>, ChunkTag)>,
) -> Result<(Seq<u8>, u64), Error> {
    match pulled {
        None => Err(Error::Auth),
        Some((p, tag)) => if tag == ChunkTag::Final {
            Ok((p, 0u64))
        } else if p.len() != chunk_size {
            Err(Error::Format)
        } else if remaining >= chunk_size {
            Ok((p, (remaining - chunk_size) as u64))
        } else {
            Ok((p, 0u64))
        },
    }
}

/// How many bytes of `rest` the next body chunk takes: a full sealed chunk,
/// or all of `rest` where that is less.
pub open spec fn read_len(rest_len: nat, chunk_size: u32) -> int {
    if rest_len <= chunk_size + OVERHEAD {
        rest_len as int
    } else {
        chunk_size + OVERHEAD
    }
}

/// The plaintext that the body `rest` opens to, on a stream with transcript
/// `t`, while `remaining` bytes are expected; or the first error.
pub open spec fn open_body(t: Seq<Seq<u8>>, rest: Seq<u8>, chunk_size: u32, remaining: u64) -> Result<
    Seq<u8>,
    Error,
>
    decreases rest.len(),
{
    if remaining == 0 {
        Ok(Seq::empty())
    } else if rest.len() == 0 {
        Err(Error::Format)
    } else {
        let n = read_len(rest.len(), chunk_size);
        let chunk = rest.take(n);
        match step_outcome(chunk_size, remaining, opened(t, chunk)) {
            Err(e) => Err(e),
            Ok((p, left)) => join(p, open_body(t.push(chunk), rest.skip(n), chunk_size, left)),
        }
    }
}

/// Whether a metadata blob names `check_path` and a regular file.
pub open spec fn identity_matches(metadata: Seq<u8>, check_path: Seq<u8>) -> bool {
    &&& metadata.len() >= PATH_METADATA_FIXED_LEN
    &&& metadata.skip(PATH_METADATA_FIXED_LEN as int) == check_path
    &&& is_regular(le32(metadata) as u32)
}

/// What the identity check makes of a metadata blob: a blob too short to
/// hold mode and times is a format error, another path or a mode that is
/// not a regular file's a validation error.
pub open spec fn identity_outcome(metadata: Seq<u8>, check_path: Seq<u8>) -> Result<(), Error> {
    if metadata.len() < PATH_METADATA_FIXED_LEN {
        Err(Error::Format)
    } else if !identity_matches(metadata, check_path) {
        Err(Error::Validation)
    } else {
        Ok(())
    }
}

/// What the metadata chunk gives, given what the cipher made of it: the
/// metadata behind the sealed descriptor, which must be `lead`, the
/// descriptor bytes in front of the container.
pub open spec fn metadata_outcome(lead: Seq<u8>, pulled: Option<(Seq<u8>, ChunkTag)>) -> Result<
    Seq<u8>,
    Error,
> {
    match pulled {
        None => Err(Error::Auth),
        Some((p, _)) => if p.len() < DESCRIPTOR_LEN || p.take(DESCRIPTOR_LEN as int) != lead {
            Err(Error::Integrity)
        } else {
            Ok(p.skip(DESCRIPTOR_LEN as int))
        },
    }
}

/// What opening a container gives.
pub struct OpenedView {
    /// The metadata blob.
    pub metadata: Seq<u8>,
    /// The plaintext; `None` where only the metadata was asked for.
    pub plaintext: Option<Seq<u8>>,
}

/// Length of the sealed metadata chunk of a container that starts with
/// `lead`.
pub open spec fn metadata_chunk_len(lead: Seq<u8>) -> int {
    DESCRIPTOR_LEN + descriptor_of(lead).metadata_size + OVERHEAD
}

/// What opening `container` under `key` gives: the checks in the order in
/// which they are made, and the first one that fails.
pub open spec fn opening(
    key: Seq<u8>,
    container: Seq<u8>,
    metadata_only: bool,
    check_path: Seq<u8>,
) -> Result<OpenedView, Error> {
    let header = container.subrange(DESCRIPTOR_LEN as int, LEAD_LEN as int);
    let need = metadata_chunk_len(container);
    let t = seq![key, header];
    let first = container.subrange(LEAD_LEN as int, LEAD_LEN + need);
    if container.len() < LEAD_LEN {
        Err(Error::Format)
    } else if key.len() != KEY_LEN {
        Err(Error::Key)
    } else if !pull_accepts(key, header) {
        Err(Error::Auth)
    } else if container.len() < LEAD_LEN + need {
        Err(Error::Format)
    } else {
        match metadata_outcome(container.take(DESCRIPTOR_LEN as int), opened(t, first)) {
            Err(e) => Err(e),
            Ok(metadata) => if metadata_only {
                Ok(OpenedView { metadata, plaintext: None })
            } else if check_path.len() > 0 && identity_outcome(metadata, check_path) is Err {
                Err(identity_outcome(metadata, check_path)->Err_0)
            } else {
                let d = descriptor_of(container);
                match open_body(
                    t.push(first),
                    container.skip(LEAD_LEN + need),
                    d.chunk_size,
                    d.plain_size,
                ) {
                    Err(e) => Err(e),
                    Ok(p) => Ok(OpenedView { metadata, plaintext: Some(p) }),
                }
            },
        }
    }
}

} // verus!
