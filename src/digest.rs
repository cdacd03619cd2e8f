use vstd::prelude::*;

use crate::encoding::{encode_header, header_error, segment_bytes, EntryKind, TreeHasher};
use crate::error::{DigestError, RootProblem};
use crate::hasher::{hex_lower, sha256_of};

verus! {

/// One walked node: its kind, its path relative to the root split into
/// segments (`None` for a segment that is not text; the root has none), and,
/// for a file, its content.
#[derive(Debug)]
pub struct Entry {
    pub kind: EntryKind,
    pub segments: Vec<Option<String>>,
    pub content: Vec<u8>,
}

/// The bytes one entry contributes: its header, then its content if it is a file.
pub open spec fn entry_bytes(e: Entry) -> Seq<u8> {
    encode_header(e.kind, segment_bytes(e.segments@)) + if e.kind is File {
        e.content@
    } else {
        Seq::empty()
    }
}

/// The canonical byte stream of a walk: every entry's bytes, in walk order.
pub open spec fn encode_tree(es: Seq<Entry>) -> Seq<u8>
    decreases es.len(),
{
    if es.len() == 0 {
        Seq::empty()
    } else {
        encode_tree(es.drop_last()) + entry_bytes(es.last())
    }
}

/// The error of the first entry that cannot be hashed, if any.
pub open spec fn first_error(es: Seq<Entry>) -> Option<DigestError>
    decreases es.len(),
{
    if es.len() == 0 {
        None
    } else {
        match first_error(es.drop_last()) {
            Some(e) => Some(e),
            None => header_error(es.last().kind, es.last().segments@),
        }
    }
}

/// The outcome of hashing a walk: the first error, or the hex digest of the stream.
pub open spec fn tree_digest(es: Seq<Entry>) -> Result<Seq<char>, DigestError> {
    match first_error(es) {
        Some(e) => Err(e),
        None => Ok(hex_lower(sha256_of(encode_tree(es)))),
    }
}

/// What the pre-flight check of the root says, given the kind of node found
/// there (`None` when nothing exists at the path).
pub open spec fn root_check(found: Option<EntryKind>) -> Result<(), DigestError> {
    match found {
        None => Err(DigestError::InvalidRoot(RootProblem::Missing)),
        Some(EntryKind::Directory) => Ok(()),
        Some(EntryKind::File) => Err(DigestError::InvalidRoot(RootProblem::IsFile)),
        Some(EntryKind::Symlink) => Err(DigestError::InvalidRoot(RootProblem::IsSymlink)),
        Some(EntryKind::Other) => Err(DigestError::InvalidRoot(RootProblem::UnknownKind)),
    }
}

/// Pre-flight check of the root: only a real directory may be walked.
pub fn validate_root(found: Option<EntryKind>) -> (r: Result<(), DigestError>)
    ensures
        r == root_check(found),
{
    match found {
        None => Err(DigestError::InvalidRoot(RootProblem::Missing)),
        Some(EntryKind::Directory) => Ok(()),
        Some(EntryKind::File) => Err(DigestError::InvalidRoot(RootProblem::IsFile)),
        Some(EntryKind::Symlink) => Err(DigestError::InvalidRoot(RootProblem::IsSymlink)),
        Some(EntryKind::Other) => Err(DigestError::InvalidRoot(RootProblem::UnknownKind)),
    }
}

/// Hashes a walk, given as its entries in walk order (the root first).
/// Stops at the first entry that cannot be hashed.
pub fn digest_entries(entries: &Vec<Entry>) -> (r: Result<String, DigestError>)
    ensures
        match tree_digest(entries@) {
            Ok(d) => r is Ok && r->Ok_0@ == d,
            Err(e) => r == Err::<String, DigestError>(e),
        },
{
    let mut hasher = TreeHasher::new();
    let n = entries.len();
    let mut i: usize = 0;
    while i < n
        invariant
            n == entries@.len(),
            i <= n,
            first_error(entries@.take(i as int)) is None,
            hasher.stream() == encode_tree(entries@.take(i as int)),
        decreases n - i,
    {
        let e = &entries[i];
        proof {
            assert(entries@.take(i + 1).drop_last() == entries@.take(i as int));
            assert(entries@.take(i + 1).last() == *e);
        }
        let step = hasher.absorb_entry(e.kind, &e.segments);
        match step {
            Ok(()) => {},
            Err(err) => {
                proof {
                    lemma_first_error_extends(entries@, i as int);
                }
                return Err(err);
            },
        }
        match e.kind {
            EntryKind::File => {
                hasher.absorb_content(e.content.as_slice());
            },
            _ => {},
        }
        i = i + 1;
    }
    proof {
        assert(entries@.take(n as int) == entries@);
    }
    Ok(hasher.finish())
}

/// Once a prefix of a walk holds an error, every longer prefix reports that error.
pub proof fn lemma_first_error_extends(es: Seq<Entry>, i: int)
    requires
        0 <= i < es.len(),
        first_error(es.take(i)) is None,
        header_error(es[i].kind, es[i].segments@) is Some,
    ensures
        first_error(es) == header_error(es[i].kind, es[i].segments@),
    decreases es.len(),
{
    if es.len() == i + 1 {
        assert(es.drop_last() == es.take(i));
    } else {
        assert(es.drop_last().take(i) == es.take(i));
        lemma_first_error_extends(es.drop_last(), i);
    }
}

/// Pre-flight check of the root, then the digest of the walk under it. Nothing
/// is hashed when the root is refused.
pub fn compute(root: Option<EntryKind>, entries: &Vec<Entry>) -> (r: Result<String, DigestError>)
    ensures
        root_check(root) is Err ==> r == Err::<String, DigestError>(root_check(root)->Err_0),
        root_check(root) is Ok ==> match tree_digest(entries@) {
            Ok(d) => r is Ok && r->Ok_0@ == d,
            Err(e) => r == Err::<String, DigestError>(e),
        },
{
    match validate_root(root) {
        Ok(()) => digest_entries(entries),
        Err(e) => Err(e),
    }
}

} // verus!
