use vstd::prelude::*;
use vstd::utf8::encode_utf8;

use crate::error::DigestError;
use crate::hasher::{absorbed, hex_lower, sha256_of, state_finalize, state_new, state_update, to_hex_lower, HashState};

verus! {

/// Marker byte that opens the record of a directory.
pub const DIR_MARKER: u8 = 0x00;

/// Marker byte that opens the record of a regular file.
pub const FILE_MARKER: u8 = 0x01;

/// Tag byte written before each segment of a relative path.
pub const SEGMENT_TAG: u8 = 0x00;

/// What a walked node is. Only directories and regular files can be hashed.
#[derive(Clone, Copy, Debug, PartialEq, Eq, Structural)]
pub enum EntryKind {
    Directory,
    File,
    Symlink,
    Other,
}

pub open spec fn is_hashable(kind: EntryKind) -> bool {
    kind is Directory || kind is File
}

pub open spec fn marker(kind: EntryKind) -> u8 {
    if kind is File {
        FILE_MARKER
    } else {
        DIR_MARKER
    }
}

/// A relative path as bytes: each segment preceded by the segment tag.
pub open spec fn encode_path(segs: Seq<Seq<u8>>) -> Seq<u8>
    decreases segs.len(),
{
    if segs.len() == 0 {
        Seq::empty()
    } else {
        encode_path(segs.drop_last()) + seq![SEGMENT_TAG] + segs.last()
    }
}

/// The marker of an entry followed by its encoded relative path.
pub open spec fn encode_header(kind: EntryKind, segs: Seq<Seq<u8>>) -> Seq<u8> {
    seq![marker(kind)] + encode_path(segs)
}

/// Every segment is text.
pub open spec fn all_text(segs: Seq<Option<String>>) -> bool {
    forall|i: int| 0 <= i < segs.len() ==> (#[trigger] segs[i]) is Some
}

/// The UTF-8 bytes of each segment (meaningful when every segment is text).
pub open spec fn segment_bytes(segs: Seq<Option<String>>) -> Seq<Seq<u8>> {
    segs.map_values(|o: Option<String>| encode_utf8(o->Some_0@))
}

/// Why an entry cannot be hashed, if it cannot: its kind is checked first,
/// then its path.
pub open spec fn header_error(kind: EntryKind, segs: Seq<Option<String>>) -> Option<DigestError> {
    if !is_hashable(kind) {
        Some(DigestError::UnsupportedEntryKind)
    } else if !all_text(segs) {
        Some(DigestError::NonUnicodePath)
    } else {
        None
    }
}

/// Accumulates the canonical byte stream of a tree into a SHA-256 state, one
/// entry at a time, in walk order.
pub struct TreeHasher {
    state: HashState,
}

impl TreeHasher {
    /// Everything absorbed so far.
    pub closed spec fn stream(&self) -> Seq<u8> {
        absorbed(self.state)
    }

    pub fn new() -> (r: TreeHasher)
        ensures
            r.stream() == Seq::<u8>::empty(),
    {
        TreeHasher { state: state_new() }
    }

    /// Absorbs the header of one entry (marker, then tagged path segments).
    /// A symlink or other node, or a segment that is not text, is refused and
    /// nothing is absorbed.
    pub fn absorb_entry(&mut self, kind: EntryKind, segments: &Vec<Option<String>>) -> (r: Result<(), DigestError>)
        ensures
            match header_error(kind, segments@) {
                Some(e) => r == Err::<(), DigestError>(e) && final(self).stream() == old(self).stream(),
                None => r is Ok && final(self).stream() == old(self).stream()
                    + encode_header(kind, segment_bytes(segments@)),
            },
    {
        let hashable = match kind {
            EntryKind::Directory => true,
            EntryKind::File => true,
            _ => false,
        };
        if !hashable {
            return Err(DigestError::UnsupportedEntryKind);
        }
        let n = segments.len();
        let mut i: usize = 0;
        while i < n
            invariant
                n == segments@.len(),
                i <= n,
                is_hashable(kind),
                forall|j: int| 0 <= j < i ==> (#[trigger] segments@[j]) is Some,
            decreases n - i,
        {
            if segments[i].is_none() {
                assert(!all_text(segments@));
                return Err(DigestError::NonUnicodePath);
            }
            i = i + 1;
        }
        let ghost start = self.stream();
        let ghost segs = segment_bytes(segments@);
        let mark: u8 = match kind {
            EntryKind::File => FILE_MARKER,
            _ => DIR_MARKER,
        };
        let mark_bytes = vec![mark];
        state_update(&mut self.state, mark_bytes.as_slice());
        let tag_bytes = vec![SEGMENT_TAG];
        let mut i: usize = 0;
        while i < n
            invariant
                n == segments@.len(),
                i <= n,
                all_text(segments@),
                segs == segment_bytes(segments@),
                tag_bytes@ == seq![SEGMENT_TAG],
                self.stream() == start + seq![marker(kind)] + encode_path(segs.take(i as int)),
            decreases n - i,
        {
            let seg = match &segments[i] {
                Some(s) => s,
                None => {
                    return Err(DigestError::NonUnicodePath);
                },
            };
            let bytes = seg.as_str().as_bytes();
            state_update(&mut self.state, tag_bytes.as_slice());
            state_update(&mut self.state, bytes);
            proof {
                assert(segs.take(i + 1).drop_last() == segs.take(i as int));
                assert(segs.take(i + 1).last() == bytes@);
            }
            i = i + 1;
        }
        proof {
            assert(segs.take(n as int) == segs);
        }
        Ok(())
    }

    /// Absorbs a chunk of a file's content.
    pub fn absorb_content(&mut self, chunk: &[u8])
        ensures
            final(self).stream() == old(self).stream() + chunk@,
    {
        state_update(&mut self.state, chunk);
    }

    /// Finalizes the state: the lowercase hex SHA-256 digest of the stream.
    pub fn finish(self) -> (r: String)
        ensures
            r@ == hex_lower(sha256_of(self.stream())),
    {
        let d = state_finalize(self.state);
        to_hex_lower(d.as_slice())
    }
}

} // verus!
