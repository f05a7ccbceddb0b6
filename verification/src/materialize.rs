//! A model of materialization: what creating the collected paths does to
//! a filesystem, as a map from relative paths to entries.
//!
//! For each path in order, the parent directories are ensured first
//! (creating a directory that already exists is a no-op), then the leaf is
//! created: an empty directory for a directory-like path, an empty file
//! otherwise.  Creating a file truncates an existing one — the overwrite
//! semantics — so materializing the same set again reproduces the same
//! filesystem, and every directory-like creation the second time around
//! finds its entry already present.

use vstd::prelude::*;
use crate::classify::path_dir_like;
use crate::collect::ancestor_closed;
use crate::paths::PathSet;

verus! {

/// A filesystem entry: a directory, or a file with its content.
pub enum FsEntry {
    Dir,
    File(Seq<u8>),
}

/// Ensuring a directory: a no-op when any entry already sits at the path.
pub open spec fn mkdir(fs: Map<Seq<Seq<char>>, FsEntry>, p: Seq<Seq<char>>) -> Map<
    Seq<Seq<char>>,
    FsEntry,
> {
    if fs.dom().contains(p) {
        fs
    } else {
        fs.insert(p, FsEntry::Dir)
    }
}

/// Creating a file: truncates whatever sat at the path to an empty file.
pub open spec fn create_file(fs: Map<Seq<Seq<char>>, FsEntry>, p: Seq<Seq<char>>) -> Map<
    Seq<Seq<char>>,
    FsEntry,
> {
    fs.insert(p, FsEntry::File(Seq::empty()))
}

/// Ensuring the first `k` prefixes of a path as directories, shortest
/// first.
pub open spec fn mkdir_prefixes(fs: Map<Seq<Seq<char>>, FsEntry>, p: Seq<Seq<char>>, k: int) -> Map<
    Seq<Seq<char>>,
    FsEntry,
>
    decreases k,
{
    if k <= 0 {
        fs
    } else {
        mkdir(mkdir_prefixes(fs, p, k - 1), p.take(k))
    }
}

/// Materializing one path: ancestors as directories, then the leaf by its
/// classification.
pub open spec fn mat_one(fs: Map<Seq<Seq<char>>, FsEntry>, p: Seq<Seq<char>>) -> Map<
    Seq<Seq<char>>,
    FsEntry,
>
    recommends
        p.len() >= 1,
{
    if path_dir_like(p) {
        mkdir_prefixes(fs, p, p.len() as int)
    } else {
        create_file(mkdir_prefixes(fs, p, p.len() - 1), p)
    }
}

/// Materializing a sequence of paths in order.
pub open spec fn materialize(fs: Map<Seq<Seq<char>>, FsEntry>, ps: Seq<Seq<Seq<char>>>) -> Map<
    Seq<Seq<char>>,
    FsEntry,
>
    decreases ps.len(),
{
    if ps.len() == 0 {
        fs
    } else {
        materialize(mat_one(fs, ps[0]), ps.drop_first())
    }
}

proof fn lemma_mkdir_prefixes_preserve(
    fs: Map<Seq<Seq<char>>, FsEntry>,
    p: Seq<Seq<char>>,
    k: int,
    key: Seq<Seq<char>>,
)
    requires
        fs.dom().contains(key),
    ensures
        mkdir_prefixes(fs, p, k).dom().contains(key),
        mkdir_prefixes(fs, p, k)[key] == fs[key],
    decreases k,
{
    if k > 0 {
        lemma_mkdir_prefixes_preserve(fs, p, k - 1, key);
    }
}

proof fn lemma_mkdir_prefixes_mono(
    fs: Map<Seq<Seq<char>>, FsEntry>,
    p: Seq<Seq<char>>,
    k: int,
    key: Seq<Seq<char>>,
)
    requires
        fs.dom().contains(key),
    ensures
        mkdir_prefixes(fs, p, k).dom().contains(key),
    decreases k,
{
    if k > 0 {
        lemma_mkdir_prefixes_mono(fs, p, k - 1, key);
    }
}

proof fn lemma_mat_one_mono(fs: Map<Seq<Seq<char>>, FsEntry>, p: Seq<Seq<char>>, key: Seq<Seq<char>>)
    requires
        fs.dom().contains(key),
    ensures
        mat_one(fs, p).dom().contains(key),
{
    if path_dir_like(p) {
        lemma_mkdir_prefixes_mono(fs, p, p.len() as int, key);
    } else {
        lemma_mkdir_prefixes_mono(fs, p, p.len() - 1, key);
    }
}

proof fn lemma_materialize_mono(
    fs: Map<Seq<Seq<char>>, FsEntry>,
    ps: Seq<Seq<Seq<char>>>,
    key: Seq<Seq<char>>,
)
    requires
        fs.dom().contains(key),
    ensures
        materialize(fs, ps).dom().contains(key),
    decreases ps.len(),
{
    if ps.len() > 0 {
        lemma_mat_one_mono(fs, ps[0], key);
        lemma_materialize_mono(mat_one(fs, ps[0]), ps.drop_first(), key);
    }
}

proof fn lemma_materialize_preserve(
    fs: Map<Seq<Seq<char>>, FsEntry>,
    ps: Seq<Seq<Seq<char>>>,
    key: Seq<Seq<char>>,
)
    requires
        fs.dom().contains(key),
        forall|i: int| 0 <= i < ps.len() ==> !(#[trigger] ps[i] == key && !path_dir_like(ps[i])),
    ensures
        materialize(fs, ps).dom().contains(key),
        materialize(fs, ps)[key] == fs[key],
    decreases ps.len(),
{
    if ps.len() > 0 {
        let p = ps[0];
        let fs1 = mat_one(fs, p);
        if path_dir_like(p) {
            lemma_mkdir_prefixes_preserve(fs, p, p.len() as int, key);
        } else {
            lemma_mkdir_prefixes_preserve(fs, p, p.len() - 1, key);
            assert(p != key);
        }
        assert(fs1.dom().contains(key) && fs1[key] == fs[key]);
        lemma_materialize_preserve(fs1, ps.drop_first(), key);
    }
}

proof fn lemma_mkdir_prefixes_add(fs: Map<Seq<Seq<char>>, FsEntry>, p: Seq<Seq<char>>, k: int)
    ensures
        forall|i: int| 1 <= i <= k ==> mkdir_prefixes(fs, p, k).dom().contains(#[trigger] p.take(i)),
    decreases k,
{
    if k > 0 {
        lemma_mkdir_prefixes_add(fs, p, k - 1);
        assert forall|i: int| 1 <= i <= k implies mkdir_prefixes(fs, p, k).dom().contains(
            #[trigger] p.take(i),
        ) by {
            if i < k {
                assert(mkdir(mkdir_prefixes(fs, p, k - 1), p.take(k)).dom().contains(p.take(i)));
            }
        }
    }
}

proof fn lemma_mkdir_prefixes_noop(fs: Map<Seq<Seq<char>>, FsEntry>, p: Seq<Seq<char>>, k: int)
    requires
        forall|i: int| 1 <= i <= k ==> fs.dom().contains(#[trigger] p.take(i)),
    ensures
        mkdir_prefixes(fs, p, k) == fs,
    decreases k,
{
    if k > 0 {
        lemma_mkdir_prefixes_noop(fs, p, k - 1);
    }
}

proof fn lemma_mat_one_adds(fs: Map<Seq<Seq<char>>, FsEntry>, p: Seq<Seq<char>>)
    requires
        p.len() >= 1,
    ensures
        forall|i: int| 1 <= i <= p.len() ==> mat_one(fs, p).dom().contains(#[trigger] p.take(i)),
        !path_dir_like(p) ==> mat_one(fs, p)[p] == FsEntry::File(Seq::empty()),
{
    assert(p.take(p.len() as int) =~= p);
    if path_dir_like(p) {
        lemma_mkdir_prefixes_add(fs, p, p.len() as int);
    } else {
        lemma_mkdir_prefixes_add(fs, p, p.len() - 1);
        assert forall|i: int| 1 <= i <= p.len() implies mat_one(fs, p).dom().contains(
            #[trigger] p.take(i),
        ) by {
            if i < p.len() {
                assert(mkdir_prefixes(fs, p, p.len() - 1).dom().contains(p.take(i)));
            }
        }
    }
}

/// Materialization covers its input: afterwards every path of the set has
/// an entry, so a directory-like path created again simply finds its
/// directory (the no-op branch, never an error).
pub proof fn lemma_materialize_covers(fs: Map<Seq<Seq<char>>, FsEntry>, ps: Seq<Seq<Seq<char>>>)
    requires
        forall|i: int| 0 <= i < ps.len() ==> #[trigger] ps[i].len() >= 1,
    ensures
        forall|i: int|
            0 <= i < ps.len() ==> materialize(fs, ps).dom().contains(#[trigger] ps[i]),
    decreases ps.len(),
{
    if ps.len() > 0 {
        let p = ps[0];
        let fs1 = mat_one(fs, p);
        lemma_mat_one_adds(fs, p);
        assert(p.take(p.len() as int) =~= p);
        lemma_materialize_mono(fs1, ps.drop_first(), p);
        lemma_materialize_covers(fs1, ps.drop_first());
        assert forall|i: int| 0 <= i < ps.len() implies materialize(fs, ps).dom().contains(
            #[trigger] ps[i],
        ) by {
            if i > 0 {
                assert(ps.drop_first()[i - 1] == ps[i]);
                assert(materialize(fs1, ps.drop_first()).dom().contains(ps.drop_first()[i - 1]));
            }
        }
    }
}

/// Idempotence of materialization: materializing a duplicate-free path
/// sequence a second time, over the filesystem the first run produced,
/// changes nothing — directory creations find their entries and file
/// creations overwrite empty files with empty files.
pub proof fn lemma_materialize_idempotent(fs: Map<Seq<Seq<char>>, FsEntry>, ps: Seq<Seq<Seq<char>>>)
    requires
        ps.no_duplicates(),
        forall|i: int| 0 <= i < ps.len() ==> #[trigger] ps[i].len() >= 1,
    ensures
        materialize(materialize(fs, ps), ps) == materialize(fs, ps),
    decreases ps.len(),
{
    if ps.len() > 0 {
        let p = ps[0];
        let fs1 = mat_one(fs, p);
        let rest = ps.drop_first();
        let fs2 = materialize(fs1, rest);
        assert(materialize(fs, ps) == fs2);
        // The second pass over `p` changes nothing in fs2.
        lemma_mat_one_adds(fs, p);
        assert(p.take(p.len() as int) =~= p);
        assert forall|i: int| 1 <= i <= p.len() implies fs2.dom().contains(
            #[trigger] p.take(i),
        ) by {
            lemma_materialize_mono(fs1, rest, p.take(i));
        }
        if path_dir_like(p) {
            lemma_mkdir_prefixes_noop(fs2, p, p.len() as int);
            assert(mat_one(fs2, p) == fs2);
        } else {
            lemma_mkdir_prefixes_noop(fs2, p, p.len() - 1);
            assert forall|i: int| 0 <= i < rest.len() implies !(#[trigger] rest[i] == p
                && !path_dir_like(rest[i])) by {
                assert(rest[i] == ps[i + 1]);
            }
            lemma_materialize_preserve(fs1, rest, p);
            assert(fs2[p] == FsEntry::File(Seq::empty()));
            assert(create_file(fs2, p) =~= fs2);
            assert(mat_one(fs2, p) == fs2);
        }
        // Induction over the remaining paths.
        assert(rest.no_duplicates());
        lemma_materialize_idempotent(fs1, rest);
        assert(materialize(fs2, ps) == materialize(mat_one(fs2, p), rest));
        assert(materialize(fs2, rest) == fs2);
    }
}

/// Idempotence applied to a collected path set: its sorted order is free
/// of duplicates and, being ancestor-closed, stores no base and no empty
/// path, so materializing it twice equals materializing it once.
pub proof fn lemma_pathset_materialize_idempotent(s: &PathSet, fs: Map<Seq<Seq<char>>, FsEntry>)
    requires
        s.wf(),
        ancestor_closed(s@.to_set()),
    ensures
        materialize(materialize(fs, s@), s@) == materialize(fs, s@),
{
    s.lemma_no_duplicates();
    assert forall|i: int| 0 <= i < s@.len() implies #[trigger] s@[i].len() >= 1 by {
        assert(s@.contains(s@[i]));
        assert(s@.to_set().contains(s@[i]));
    }
    lemma_materialize_idempotent(fs, s@);
}

} // verus!
