use vstd::prelude::*;

use crate::digest::{
    encode_tree, entry_bytes, first_error, lemma_first_error_extends, tree_digest, Entry,
};
use crate::encoding::{
    all_text, encode_header, encode_path, header_error, is_hashable, marker, segment_bytes,
    EntryKind, DIR_MARKER, SEGMENT_TAG,
};
use crate::error::DigestError;

verus! {

/// The stream of two consecutive runs of a walk is the concatenation of their streams.
pub proof fn lemma_encode_tree_append(a: Seq<Entry>, b: Seq<Entry>)
    ensures
        encode_tree(a + b) == encode_tree(a) + encode_tree(b),
    decreases b.len(),
{
    if b.len() == 0 {
        assert(a + b == a);
    } else {
        assert((a + b).drop_last() == a + b.drop_last());
        lemma_encode_tree_append(a, b.drop_last());
    }
}

/// The stream of a walk of one entry is that entry's bytes.
proof fn lemma_encode_tree_single(e: Entry)
    ensures
        encode_tree(seq![e]) == entry_bytes(e),
{
    let s = seq![e];
    assert(s.last() == e);
    assert(s.drop_last() =~= Seq::<Entry>::empty());
    assert(encode_tree(Seq::<Entry>::empty()) == Seq::<u8>::empty());
    assert(encode_tree(s) == encode_tree(s.drop_last()) + entry_bytes(e));
    assert(encode_tree(s) =~= entry_bytes(e));
}

/// The stream of a walk, split around its entry `i`.
proof fn lemma_encode_tree_split(es: Seq<Entry>, i: int)
    requires
        0 <= i < es.len(),
    ensures
        encode_tree(es) == encode_tree(es.take(i)) + entry_bytes(es[i]) + encode_tree(es.skip(i + 1)),
{
    assert(es =~= es.take(i) + seq![es[i]] + es.skip(i + 1));
    lemma_encode_tree_append(es.take(i) + seq![es[i]], es.skip(i + 1));
    lemma_encode_tree_append(es.take(i), seq![es[i]]);
    lemma_encode_tree_single(es[i]);
}

/// A segment byte string that the segment tag cannot occur in.
pub open spec fn tag_free(seg: Seq<u8>) -> bool {
    forall|k: int| 0 <= k < seg.len() ==> seg[k] != SEGMENT_TAG
}

/// No path-joining collisions: when no segment holds the tag byte (as no file
/// name holds a NUL byte), distinct segment lists are encoded to distinct byte
/// strings; in particular `["a", "b"]` and `["a/b"]` differ.
pub proof fn lemma_path_encoding_injective(p: Seq<Seq<u8>>, q: Seq<Seq<u8>>)
    requires
        forall|k: int| 0 <= k < p.len() ==> tag_free(#[trigger] p[k]),
        forall|k: int| 0 <= k < q.len() ==> tag_free(#[trigger] q[k]),
        encode_path(p) == encode_path(q),
    ensures
        p == q,
    decreases p.len() + q.len(),
{
    let e = encode_path(p);
    if p.len() == 0 || q.len() == 0 {
        if p.len() != 0 || q.len() != 0 {
            assert(encode_path(p).len() > 0 || encode_path(q).len() > 0);
        }
        assert(p =~= q);
    } else {
        let a = p.last();
        let b = q.last();
        let ep = encode_path(p.drop_last());
        let eq = encode_path(q.drop_last());
        assert(tag_free(a));
        assert(tag_free(b));
        if a.len() < b.len() {
            let pos = e.len() - 1 - a.len();
            assert(e[pos] == SEGMENT_TAG);
            assert(e[pos] == b[b.len() - 1 - a.len()]);
        } else if b.len() < a.len() {
            let pos = e.len() - 1 - b.len();
            assert(e[pos] == SEGMENT_TAG);
            assert(e[pos] == a[a.len() - 1 - b.len()]);
        }
        assert(a.len() == b.len());
        assert(a =~= e.skip(e.len() - a.len()));
        assert(b =~= e.skip(e.len() - b.len()));
        assert(ep =~= e.take(ep.len() as int));
        assert(eq =~= e.take(eq.len() as int));
        assert forall|k: int| 0 <= k < p.drop_last().len() implies tag_free(
            #[trigger] p.drop_last()[k],
        ) by {
            assert(tag_free(p[k]));
        }
        assert forall|k: int| 0 <= k < q.drop_last().len() implies tag_free(
            #[trigger] q.drop_last()[k],
        ) by {
            assert(tag_free(q[k]));
        }
        lemma_path_encoding_injective(p.drop_last(), q.drop_last());
        assert(p =~= p.drop_last().push(a));
        assert(q =~= q.drop_last().push(b));
    }
}

/// Entry headers are unambiguous: equal headers of two hashable entries mean
/// the same kind and the same path, given tag-free segments.
pub proof fn lemma_header_injective(k1: EntryKind, p: Seq<Seq<u8>>, k2: EntryKind, q: Seq<Seq<u8>>)
    requires
        is_hashable(k1),
        is_hashable(k2),
        forall|k: int| 0 <= k < p.len() ==> tag_free(#[trigger] p[k]),
        forall|k: int| 0 <= k < q.len() ==> tag_free(#[trigger] q[k]),
        encode_header(k1, p) == encode_header(k2, q),
    ensures
        k1 == k2,
        p == q,
{
    let h = encode_header(k1, p);
    assert(h[0] == marker(k1));
    assert(encode_header(k2, q)[0] == marker(k2));
    assert(encode_path(p) =~= h.skip(1));
    assert(encode_path(q) =~= encode_header(k2, q).skip(1));
    lemma_path_encoding_injective(p, q);
}

/// Content sensitivity: two walks that differ only in one byte of one file's
/// content have different streams.
pub proof fn lemma_content_byte_changes_stream(a: Seq<Entry>, b: Seq<Entry>, i: int, j: int)
    requires
        a.len() == b.len(),
        0 <= i < a.len(),
        forall|k: int| 0 <= k < a.len() && k != i ==> a[k] == b[k],
        a[i].kind is File,
        b[i].kind is File,
        a[i].segments == b[i].segments,
        a[i].content@.len() == b[i].content@.len(),
        0 <= j < a[i].content@.len(),
        a[i].content@[j] != b[i].content@[j],
    ensures
        encode_tree(a) != encode_tree(b),
{
    lemma_encode_tree_split(a, i);
    lemma_encode_tree_split(b, i);
    assert(a.take(i) =~= b.take(i));
    let pre = encode_tree(a.take(i));
    let h = encode_header(a[i].kind, segment_bytes(a[i].segments@));
    assert(h == encode_header(b[i].kind, segment_bytes(b[i].segments@)));
    let pos = pre.len() + h.len() + j;
    assert(encode_tree(a)[pos] == a[i].content@[j]);
    assert(encode_tree(b)[pos] == b[i].content@[j]);
}

/// Kind sensitivity: turning one entry from a directory into a file, or back,
/// changes the stream.
pub proof fn lemma_kind_change_changes_stream(a: Seq<Entry>, b: Seq<Entry>, i: int)
    requires
        a.len() == b.len(),
        0 <= i < a.len(),
        forall|k: int| 0 <= k < a.len() && k != i ==> a[k] == b[k],
        is_hashable(a[i].kind),
        is_hashable(b[i].kind),
        a[i].kind != b[i].kind,
    ensures
        encode_tree(a) != encode_tree(b),
{
    lemma_encode_tree_split(a, i);
    lemma_encode_tree_split(b, i);
    assert(a.take(i) =~= b.take(i));
    let pre = encode_tree(a.take(i));
    assert(encode_tree(a)[pre.len() as int] == marker(a[i].kind));
    assert(encode_tree(b)[pre.len() as int] == marker(b[i].kind));
}

/// Path sensitivity: renaming or moving one entry while it keeps its kind,
/// its content and its place in the walk changes the stream (segments being
/// tag-free, as file names are).
pub proof fn lemma_path_change_changes_stream(a: Seq<Entry>, b: Seq<Entry>, i: int)
    requires
        a.len() == b.len(),
        0 <= i < a.len(),
        forall|k: int| 0 <= k < a.len() && k != i ==> a[k] == b[k],
        a[i].kind == b[i].kind,
        is_hashable(a[i].kind),
        a[i].content@ == b[i].content@,
        forall|k: int|
            0 <= k < a[i].segments@.len() ==> tag_free(#[trigger] segment_bytes(a[i].segments@)[k]),
        forall|k: int|
            0 <= k < b[i].segments@.len() ==> tag_free(#[trigger] segment_bytes(b[i].segments@)[k]),
        segment_bytes(a[i].segments@) != segment_bytes(b[i].segments@),
    ensures
        encode_tree(a) != encode_tree(b),
{
    let (p, q) = (segment_bytes(a[i].segments@), segment_bytes(b[i].segments@));
    let ha = encode_header(a[i].kind, p);
    let hb = encode_header(b[i].kind, q);
    assert(ha != hb) by {
        if ha == hb {
            lemma_header_injective(a[i].kind, p, b[i].kind, q);
        }
    }
    lemma_encode_tree_split(a, i);
    lemma_encode_tree_split(b, i);
    assert(a.take(i) =~= b.take(i));
    assert(a.skip(i + 1) =~= b.skip(i + 1));
    let pre = encode_tree(a.take(i));
    let post = encode_tree(a.skip(i + 1));
    let c = if a[i].kind is File { a[i].content@ } else { Seq::<u8>::empty() };
    assert(entry_bytes(a[i]) == ha + c);
    assert(entry_bytes(b[i]) == hb + c);
    if ha.len() == hb.len() {
        assert(!(ha =~= hb));
        let m = choose|m: int| 0 <= m < ha.len() && ha[m] != hb[m];
        assert(encode_tree(a) == pre + (ha + c) + post);
        assert(encode_tree(b) == pre + (hb + c) + post);
        assert((pre + (ha + c) + post)[pre.len() + m] == ha[m]);
        assert((pre + (hb + c) + post)[pre.len() + m] == hb[m]);
    } else {
        assert(encode_tree(a).len() != encode_tree(b).len());
    }
}

/// Symlink rejection: a walk holding a symlink or another unsupported node
/// anywhere never yields a digest; when nothing before it failed, the error
/// is `UnsupportedEntryKind`.
pub proof fn lemma_unsupported_entry_rejected(es: Seq<Entry>, i: int)
    requires
        0 <= i < es.len(),
        !is_hashable(es[i].kind),
    ensures
        tree_digest(es) is Err,
        first_error(es.take(i)) is None ==> tree_digest(es) == Err::<Seq<char>, DigestError>(
            DigestError::UnsupportedEntryKind,
        ),
    decreases es.len(),
{
    if first_error(es.take(i)) is None {
        lemma_first_error_extends(es, i);
    } else {
        lemma_first_error_kept(es, i);
    }
}

/// An error found in a prefix of a walk is the error of the whole walk.
proof fn lemma_first_error_kept(es: Seq<Entry>, i: int)
    requires
        0 <= i <= es.len(),
        first_error(es.take(i)) is Some,
    ensures
        first_error(es) == first_error(es.take(i)),
    decreases es.len(),
{
    if i == es.len() {
        assert(es.take(i) == es);
    } else {
        assert(es.drop_last().take(i) == es.take(i));
        lemma_first_error_kept(es.drop_last(), i);
    }
}

/// The stream of an empty directory is its root marker alone, and differs from
/// the stream of the same root followed by any further entries (such as one
/// empty subdirectory).
pub proof fn lemma_empty_root_stream(root: Entry, rest: Seq<Entry>)
    requires
        root.kind is Directory,
        root.segments@.len() == 0,
        rest.len() > 0,
    ensures
        encode_tree(seq![root]) == seq![DIR_MARKER],
        encode_tree(seq![root]) != encode_tree(seq![root] + rest),
{
    lemma_encode_tree_single(root);
    assert(segment_bytes(root.segments@) =~= Seq::<Seq<u8>>::empty());
    assert(encode_path(segment_bytes(root.segments@)) == Seq::<u8>::empty());
    assert(entry_bytes(root) =~= seq![DIR_MARKER]);
    assert(encode_tree(seq![root]) =~= seq![DIR_MARKER]);
    lemma_encode_tree_append(seq![root], rest);
    assert(entry_bytes(rest.last()).len() > 0);
    assert(encode_tree(rest).len() > 0);
}

/// What a walk sees of one path segment: its text, if it is text.
pub open spec fn segment_view(o: Option<String>) -> Option<Seq<char>> {
    match o {
        Some(t) => Some(t@),
        None => None,
    }
}

/// Two entries with the same kind, the same path segments and the same content.
pub open spec fn same_entry(x: Entry, y: Entry) -> bool {
    &&& x.kind == y.kind
    &&& x.segments@.len() == y.segments@.len()
    &&& forall|k: int|
        0 <= k < x.segments@.len() ==> segment_view(#[trigger] x.segments@[k]) == segment_view(
            y.segments@[k],
        )
    &&& x.content@ == y.content@
}

proof fn lemma_same_entry_bytes(x: Entry, y: Entry)
    requires
        same_entry(x, y),
    ensures
        header_error(x.kind, x.segments@) == header_error(y.kind, y.segments@),
        header_error(x.kind, x.segments@) is None ==> entry_bytes(x) == entry_bytes(y),
{
    assert forall|k: int| 0 <= k < x.segments@.len() implies (#[trigger] x.segments@[k] is Some)
        == (y.segments@[k] is Some) by {
        assert(segment_view(x.segments@[k]) == segment_view(y.segments@[k]));
    }
    if all_text(x.segments@) {
        assert(all_text(y.segments@)) by {
            assert forall|k: int| 0 <= k < y.segments@.len() implies (
            #[trigger] y.segments@[k]) is Some by {
                assert(x.segments@[k] is Some);
            }
        }
        assert forall|k: int| 0 <= k < x.segments@.len() implies #[trigger] segment_bytes(
            x.segments@,
        )[k] == segment_bytes(y.segments@)[k] by {
            assert(x.segments@[k] is Some);
            assert(segment_view(x.segments@[k]) == segment_view(y.segments@[k]));
        }
        assert(segment_bytes(x.segments@) =~= segment_bytes(y.segments@));
    } else {
        assert(!all_text(y.segments@)) by {
            let k = choose|k: int| 0 <= k < x.segments@.len() && !(#[trigger] x.segments@[k] is Some);
            assert(!(y.segments@[k] is Some));
        }
    }
}

/// Determinism: the outcome of hashing a walk depends only on the kinds, path
/// segments and contents of its entries, so repeated walks of an unmodified
/// tree give the same digest.
pub proof fn lemma_digest_determined(a: Seq<Entry>, b: Seq<Entry>)
    requires
        a.len() == b.len(),
        forall|i: int| 0 <= i < a.len() ==> same_entry(#[trigger] a[i], b[i]),
    ensures
        tree_digest(a) == tree_digest(b),
{
    lemma_same_walk(a, b);
}

proof fn lemma_same_walk(a: Seq<Entry>, b: Seq<Entry>)
    requires
        a.len() == b.len(),
        forall|i: int| 0 <= i < a.len() ==> same_entry(#[trigger] a[i], b[i]),
    ensures
        first_error(a) == first_error(b),
        first_error(a) is None ==> encode_tree(a) == encode_tree(b),
    decreases a.len(),
{
    if a.len() > 0 {
        let (ia, ib) = (a.drop_last(), b.drop_last());
        assert forall|i: int| 0 <= i < ia.len() implies same_entry(#[trigger] ia[i], ib[i]) by {
            assert(same_entry(a[i], b[i]));
        }
        lemma_same_walk(ia, ib);
        assert(same_entry(a[a.len() - 1], b[b.len() - 1]));
        lemma_same_entry_bytes(a.last(), b.last());
    }
}

/// Byte-wise lexicographic order; a proper prefix comes first.
pub open spec fn bytes_less(x: Seq<u8>, y: Seq<u8>) -> bool
    decreases x.len(),
{
    if x.len() == 0 {
        y.len() > 0
    } else if y.len() == 0 {
        false
    } else if x[0] != y[0] {
        x[0] < y[0]
    } else {
        bytes_less(x.drop_first(), y.drop_first())
    }
}

/// The key that orders a walk: the encoded relative path. As the segment tag
/// sorts below every byte of a name, comparing keys is pre-order with the
/// entries of each directory sorted by name.
pub open spec fn walk_key(e: Entry) -> Seq<u8> {
    encode_path(segment_bytes(e.segments@))
}

/// A walk in the canonical order: keys strictly increasing.
pub open spec fn in_walk_order(es: Seq<Entry>) -> bool {
    forall|i: int, j: int|
        0 <= i < j < es.len() ==> bytes_less(#[trigger] walk_key(es[i]), #[trigger] walk_key(es[j]))
}

proof fn lemma_bytes_less_irreflexive(x: Seq<u8>)
    ensures
        !bytes_less(x, x),
    decreases x.len(),
{
    if x.len() > 0 {
        lemma_bytes_less_irreflexive(x.drop_first());
    }
}

proof fn lemma_bytes_less_transitive(x: Seq<u8>, y: Seq<u8>, z: Seq<u8>)
    requires
        bytes_less(x, y),
        bytes_less(y, z),
    ensures
        bytes_less(x, z),
    decreases x.len(),
{
    if x.len() > 0 && y.len() > 0 && z.len() > 0 && x[0] == y[0] && y[0] == z[0] {
        lemma_bytes_less_transitive(x.drop_first(), y.drop_first(), z.drop_first());
    }
}

/// Order independence: two walks over the same entries, each in the canonical
/// order, are the same walk, whatever order the entries were created in, and
/// so have the same outcome.
pub proof fn lemma_walk_order_unique(a: Seq<Entry>, b: Seq<Entry>)
    requires
        in_walk_order(a),
        in_walk_order(b),
        a.to_set() == b.to_set(),
    ensures
        a == b,
        tree_digest(a) == tree_digest(b),
    decreases a.len(),
{
    if a.len() == 0 {
        if b.len() > 0 {
            assert(b.to_set().contains(b[0]));
        }
        assert(a =~= b);
    } else {
        assert(a.to_set().contains(a[0]));
        assert(b.contains(a[0]));
        let j = choose|j: int| 0 <= j < b.len() && b[j] == a[0];
        assert(b.to_set().contains(b[0]));
        assert(a.contains(b[0]));
        let k = choose|k: int| 0 <= k < a.len() && a[k] == b[0];
        if j > 0 && k > 0 {
            assert(bytes_less(walk_key(b[0]), walk_key(b[j])));
            assert(bytes_less(walk_key(a[0]), walk_key(a[k])));
            lemma_bytes_less_transitive(walk_key(b[0]), walk_key(a[0]), walk_key(b[0]));
            lemma_bytes_less_irreflexive(walk_key(b[0]));
        }
        assert(a[0] == b[0]);
        let (ra, rb) = (a.drop_first(), b.drop_first());
        assert forall|x: Entry| #[trigger] ra.to_set().contains(x) == rb.to_set().contains(x) by {
            if ra.contains(x) {
                let i = choose|i: int| 0 <= i < ra.len() && ra[i] == x;
                assert(a[i + 1] == x);
                assert(a.to_set().contains(x));
                assert(b.contains(x));
                let m = choose|m: int| 0 <= m < b.len() && b[m] == x;
                if m == 0 {
                    assert(bytes_less(walk_key(a[0]), walk_key(a[i + 1])));
                    lemma_bytes_less_irreflexive(walk_key(a[0]));
                }
                assert(rb[m - 1] == x);
            }
            if rb.contains(x) {
                let i = choose|i: int| 0 <= i < rb.len() && rb[i] == x;
                assert(b[i + 1] == x);
                assert(b.to_set().contains(x));
                assert(a.contains(x));
                let m = choose|m: int| 0 <= m < a.len() && a[m] == x;
                if m == 0 {
                    assert(bytes_less(walk_key(b[0]), walk_key(b[i + 1])));
                    lemma_bytes_less_irreflexive(walk_key(b[0]));
                }
                assert(ra[m - 1] == x);
            }
        }
        assert(ra.to_set() =~= rb.to_set());
        assert forall|i: int, j: int| 0 <= i < j < ra.len() implies bytes_less(
            #[trigger] walk_key(ra[i]),
            #[trigger] walk_key(ra[j]),
        ) by {
            assert(bytes_less(walk_key(a[i + 1]), walk_key(a[j + 1])));
        }
        assert forall|i: int, j: int| 0 <= i < j < rb.len() implies bytes_less(
            #[trigger] walk_key(rb[i]),
            #[trigger] walk_key(rb[j]),
        ) by {
            assert(bytes_less(walk_key(b[i + 1]), walk_key(b[j + 1])));
        }
        lemma_walk_order_unique(ra, rb);
        assert(a =~= seq![a[0]] + ra);
        assert(b =~= seq![b[0]] + rb);
    }
}

} // verus!
