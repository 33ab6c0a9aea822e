//! The chunked stream cipher, as the rest of the library sees it.
//!
//! Everything in this module is taken on trust from `sodiumoxide`'s
//! `crypto::secretstream::xchacha20poly1305`: nothing of the cipher itself
//! is proved here.

use sodiumoxide::crypto::secretstream::xchacha20poly1305::{Header, Key, Pull, Push, Stream, Tag};
use vstd::prelude::*;

verus! {

/// Length of a key.
pub const KEY_LEN: usize = 32;

/// Length of the header that starts a stream.
pub const HEADER_LEN: usize = 24;

/// Bytes that sealing adds to each chunk.
pub const OVERHEAD: usize = 17;

/// The mark that is sealed into a chunk together with its bytes.
#[derive(Clone, Copy, Debug, PartialEq, Eq, Structural)]
pub enum ChunkTag {
    /// An ordinary chunk.
    Message,
    /// The end of a group of chunks; the stream goes on.
    Push,
    /// The stream changes its key after this chunk.
    Rekey,
    /// The last chunk of the stream.
    Final,
}

/// A stream that seals chunks: `sodiumoxide`'s `Stream<Push>`, kept closed.
/// The library knows it only by its transcript and through
/// `stream_init_push` and `stream_push`.
#[verifier::external_body]
pub struct PushStream {
    inner: Stream<Push>,
}

/// A stream that opens chunks: `sodiumoxide`'s `Stream<Pull>`, kept closed.
/// The library knows it only by its transcript and through
/// `stream_init_pull` and `stream_pull`.
#[verifier::external_body]
pub struct PullStream {
    inner: Stream<Pull>,
}

/// What a sealing stream has been through: the key and the header it was
/// started with, then each chunk it has sealed, as ciphertext, oldest first.
pub uninterp spec fn push_transcript(s: PushStream) -> Seq<Seq<u8>>;

/// What an opening stream has been through: the key and the header it was
/// started with, then each chunk it has accepted, as ciphertext, oldest first.
pub uninterp spec fn pull_transcript(s: PullStream) -> Seq<Seq<u8>>;

/// Whether `Stream::init_pull` starts a stream on this key and header.
pub uninterp spec fn pull_accepts(key: Seq<u8>, header: Seq<u8>) -> bool;

/// The ciphertext that `Stream::push` gives for `msg` and `tag` on a stream
/// with this transcript, or `None` where it refuses.
pub uninterp spec fn sealed(transcript: Seq<Seq<u8>>, msg: Seq<u8>, tag: ChunkTag) -> Option<
    Seq<u8>,
>;

/// The bytes and tag that `Stream::pull` gives for `chunk` on a stream with
/// this transcript, or `None` where the chunk does not authenticate.
pub uninterp spec fn opened(transcript: Seq<Seq<u8>>, chunk: Seq<u8>) -> Option<
    (Seq<u8>, ChunkTag),
>;

/// `Stream::init_push` on `Key::from_slice(key)`. The header is drawn at
/// random, so nothing is said of its bytes. Claimed: the header has
/// `HEADER_LEN` bytes, the new stream has sealed nothing yet, and
/// `init_pull` accepts the header under the same key.
#[verifier::external_body]
pub(crate) fn stream_init_push(key: &[u8]) -> (r: Option<(PushStream, Vec<u8>)>)
    requires
        key@.len() == KEY_LEN,
    ensures
        r matches Some((s, h)) ==> {
            &&& h@.len() == HEADER_LEN
            &&& push_transcript(s) == seq![key@, h@]
            &&& pull_accepts(key@, h@)
        },
{
    let k = Key::from_slice(key)?;
    let (inner, header) = Stream::init_push(&k).ok()?;
    Some((PushStream { inner }, header.as_ref().to_vec()))
}

/// `Stream::push` without additional data. Claimed: the result is a
/// function of the stream's transcript, the bytes and the tag; a ciphertext
/// is `OVERHEAD` bytes longer than the bytes sealed; an opening stream with
/// the same transcript opens it to those bytes and that tag; and the
/// ciphertext joins the transcript.
#[verifier::external_body]
pub(crate) fn stream_push(s: &mut PushStream, msg: &[u8], tag: ChunkTag) -> (r: Option<Vec<u8>>)
    ensures
        sealed(push_transcript(*old(s)), msg@, tag) == match r {
            Some(c) => Some(c@),
            None => None::<Seq<u8>>,
        },
        r matches Some(c) ==> {
            &&& c@.len() == msg@.len() + OVERHEAD
            &&& opened(push_transcript(*old(s)), c@) == Some((msg@, tag))
            &&& push_transcript(*final(s)) == push_transcript(*old(s)).push(c@)
        },
{
    let t = match tag {
        ChunkTag::Message => Tag::Message,
        ChunkTag::Push => Tag::Push,
        ChunkTag::Rekey => Tag::Rekey,
        ChunkTag::Final => Tag::Final,
    };
    s.inner.push(msg, None, t).ok()
}

/// `Stream::init_pull` on `Key::from_slice(key)` and
/// `Header::from_slice(header)`. Claimed: whether it starts a stream is a
/// function of key and header, and a new stream has accepted nothing yet.
#[verifier::external_body]
pub(crate) fn stream_init_pull(key: &[u8], header: &[u8]) -> (r: Option<PullStream>)
    requires
        key@.len() == KEY_LEN,
        header@.len() == HEADER_LEN,
    ensures
        r is Some <==> pull_accepts(key@, header@),
        r matches Some(s) ==> pull_transcript(s) == seq![key@, header@],
{
    let k = Key::from_slice(key)?;
    let h = Header::from_slice(header)?;
    let inner = Stream::init_pull(&h, &k).ok()?;
    Some(PullStream { inner })
}

/// `Stream::pull` without additional data. Claimed: the result is a
/// function of the stream's transcript and the chunk; the bytes given back
/// are `OVERHEAD` fewer than the chunk's; and an accepted chunk joins the
/// transcript.
#[verifier::external_body]
pub(crate) fn stream_pull(s: &mut PullStream, chunk: &[u8]) -> (r: Option<(Vec<u8>, ChunkTag)>)
    ensures
        opened(pull_transcript(*old(s)), chunk@) == match r {
            Some((m, t)) => Some((m@, t)),
            None => None::<(Seq<u8>, ChunkTag)>,
        },
        r matches Some((m, t)) ==> {
            &&& m@.len() + OVERHEAD == chunk@.len()
            &&& pull_transcript(*final(s)) == pull_transcript(*old(s)).push(chunk@)
        },
{
    let (m, t) = s.inner.pull(chunk, None).ok()?;
    let tag = match t {
        Tag::Message => ChunkTag::Message,
        Tag::Push => ChunkTag::Push,
        Tag::Rekey => ChunkTag::Rekey,
        Tag::Final => ChunkTag::Final,
    };
    Some((m, tag))
}

} // verus!
