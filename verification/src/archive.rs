//! Archive ingestion: the boundary to the tar container format, and the
//! mathematical model of the data store and path index built from a
//! sequence of archive entries.

use vstd::prelude::*;

verus! {

/// Error for a malformed, truncated, or unreadable archive.
#[derive(Debug, Clone, Copy, PartialEq, Eq, Structural)]
pub struct IngestError;

/// One archive entry: a path and that entry's full contents.
pub type ArchiveEntry = (Vec<u8>, Vec<u8>);

/// The entry sequence at the spec level: each entry as its path bytes and
/// content bytes.
pub open spec fn entries_view(es: Seq<ArchiveEntry>) -> Seq<(Seq<u8>, Seq<u8>)> {
    es.map(|i: int, e: ArchiveEntry| (e.0@, e.1@))
}

/// What unpacking a tar archive from `bytes` yields: `Some` of the entry
/// sequence of a well-formed archive, in archive order, `None` where
/// parsing fails.
pub uninterp spec fn tar_entries(bytes: Seq<u8>) -> Option<Seq<(Seq<u8>, Seq<u8>)>>;

/// Relies on `tar::Archive` over an in-memory slice: `entries()` walks the
/// archive in order, yielding each entry's path bytes and contents, as a
/// pure function of the input bytes; an empty input holds no entries and
/// is accepted.
#[verifier::external_body]
pub(crate) fn unpack_entries(bytes: &Vec<u8>) -> (r: Result<Vec<ArchiveEntry>, IngestError>)
    ensures
        match r {
            Ok(es) => tar_entries(bytes@) == Some(entries_view(es@)) && (bytes@.len() == 0
                ==> es@.len() == 0),
            Err(_) => tar_entries(bytes@) is None && bytes@.len() != 0,
        },
{
    let mut ar = tar::Archive::new(&bytes[..]);
    let mut out: Vec<ArchiveEntry> = Vec::new();
    for entry in ar.entries().map_err(|_| IngestError)? {
        let mut entry = entry.map_err(|_| IngestError)?;
        let path = entry.path_bytes().into_owned();
        let mut data = Vec::new();
        std::io::Read::read_to_end(&mut entry, &mut data).map_err(|_| IngestError)?;
        out.push((path, data));
    }
    Ok(out)
}

/// The data store built from `es`: each entry's contents, in entry order.
pub open spec fn store_of(es: Seq<(Seq<u8>, Seq<u8>)>) -> Seq<Seq<u8>> {
    es.map(|i: int, e: (Seq<u8>, Seq<u8>)| e.1)
}

/// The path index built from `es`: each path maps to the position of the
/// last entry carrying it, so a later duplicate wins.
pub open spec fn index_map_of(es: Seq<(Seq<u8>, Seq<u8>)>) -> Map<Seq<u8>, int>
    decreases es.len(),
{
    if es.len() == 0 {
        Map::empty()
    } else {
        index_map_of(es.drop_last()).insert(es.last().0, es.len() - 1)
    }
}

/// Some entry of `es` carries the path `p`.
pub open spec fn has_entry(es: Seq<(Seq<u8>, Seq<u8>)>, p: Seq<u8>) -> bool {
    exists|i: int| 0 <= i < es.len() && es[i].0 == p
}

/// A path is indexed exactly when some entry carries it.
pub proof fn lemma_index_map_domain(es: Seq<(Seq<u8>, Seq<u8>)>)
    ensures
        forall|p: Seq<u8>| #[trigger] index_map_of(es).contains_key(p) <==> has_entry(es, p),
    decreases es.len(),
{
    if es.len() > 0 {
        lemma_index_map_domain(es.drop_last());
        assert forall|p: Seq<u8>| #[trigger] index_map_of(es).contains_key(p)
            implies has_entry(es, p) by {
            if p == es.last().0 {
                assert(es[es.len() - 1].0 == p);
            } else {
                assert(index_map_of(es.drop_last()).contains_key(p));
                let i = choose|i: int| 0 <= i < es.drop_last().len() && es.drop_last()[i].0 == p;
                assert(es[i].0 == p);
            }
        }
        assert forall|p: Seq<u8>| has_entry(es, p)
            implies #[trigger] index_map_of(es).contains_key(p) by {
            let i = choose|i: int| 0 <= i < es.len() && es[i].0 == p;
            if i < es.len() - 1 {
                assert(es.drop_last()[i].0 == p);
                assert(has_entry(es.drop_last(), p));
                assert(index_map_of(es.drop_last()).contains_key(p));
            }
        }
    }
}

/// Every index the map assigns lies inside the entry sequence.
pub proof fn lemma_index_map_bounds(es: Seq<(Seq<u8>, Seq<u8>)>)
    ensures
        forall|p: Seq<u8>| #[trigger] index_map_of(es).contains_key(p)
            ==> 0 <= index_map_of(es)[p] < es.len(),
    decreases es.len(),
{
    if es.len() > 0 {
        lemma_index_map_bounds(es.drop_last());
        assert forall|p: Seq<u8>| #[trigger] index_map_of(es).contains_key(p)
            implies 0 <= index_map_of(es)[p] < es.len() by {
            if p != es.last().0 {
                assert(index_map_of(es.drop_last()).contains_key(p));
                assert(index_map_of(es)[p] == index_map_of(es.drop_last())[p]);
            }
        }
    }
}

/// The index resolves a path to its last carrying entry, and the data
/// store holds that entry's contents there: reading a path yields the
/// bytes of the last archive entry with that path.
pub proof fn lemma_index_map_last_wins(es: Seq<(Seq<u8>, Seq<u8>)>, j: int)
    requires
        0 <= j < es.len(),
        forall|l: int| j < l < es.len() ==> es[l].0 != es[j].0,
    ensures
        index_map_of(es).contains_key(es[j].0),
        index_map_of(es)[es[j].0] == j,
        store_of(es)[j] == es[j].1,
    decreases es.len(),
{
    if j < es.len() - 1 {
        assert(es.drop_last()[j] == es[j]);
        assert forall|l: int| j < l < es.drop_last().len()
            implies es.drop_last()[l].0 != es.drop_last()[j].0 by {
            assert(es[l].0 != es[j].0);
        }
        lemma_index_map_last_wins(es.drop_last(), j);
        assert(es.last().0 != es[j].0);
    }
}

/// An empty archive yields an empty snapshot: no path at all is indexed.
pub proof fn lemma_empty_archive_has_no_paths(p: Seq<u8>)
    ensures
        !index_map_of(Seq::<(Seq<u8>, Seq<u8>)>::empty()).contains_key(p),
{
}

} // verus!
