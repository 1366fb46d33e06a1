//! Association lists backing the path index and the descriptor table,
//! together with the finite maps they denote.

use vstd::prelude::*;

verus! {

use crate::bytes::bytes_eq;

/// One open descriptor: the path it was opened on and the position of that
/// path's contents in the data store.
#[derive(Debug)]
pub struct FdEntry {
    pub path: Vec<u8>,
    pub index: usize,
}

/// The map denoted by a list of path/position pairs; a later pair for the
/// same path shadows an earlier one.
pub open spec fn path_map(s: Seq<(Vec<u8>, usize)>) -> Map<Seq<u8>, int>
    decreases s.len(),
{
    if s.len() == 0 {
        Map::empty()
    } else {
        path_map(s.drop_last()).insert(s.last().0@, s.last().1 as int)
    }
}

/// Look a path up, honoring the later-pair-wins discipline.
pub fn lookup_path(tab: &Vec<(Vec<u8>, usize)>, p: &Vec<u8>) -> (r: Option<usize>)
    ensures
        match r {
            Some(ix) => path_map(tab@).contains_key(p@) && path_map(tab@)[p@] == ix as int,
            None => !path_map(tab@).contains_key(p@),
        },
{
    let mut found: Option<usize> = None;
    let mut k: usize = 0;
    while k < tab.len()
        invariant
            0 <= k <= tab@.len(),
            match found {
                Some(ix) => path_map(tab@.take(k as int)).contains_key(p@)
                    && path_map(tab@.take(k as int))[p@] == ix as int,
                None => !path_map(tab@.take(k as int)).contains_key(p@),
            },
        decreases tab@.len() - k,
    {
        proof {
            assert(tab@.take(k + 1).drop_last() =~= tab@.take(k as int));
            assert(tab@.take(k + 1).last() == tab@[k as int]);
        }
        if bytes_eq(&tab[k].0, p) {
            found = Some(tab[k].1);
        }
        k += 1;
    }
    proof {
        assert(tab@.take(tab@.len() as int) =~= tab@);
    }
    found
}

/// The map denoted by the descriptor table.
pub open spec fn fd_map(s: Seq<(u64, FdEntry)>) -> Map<u64, (Seq<u8>, int)>
    decreases s.len(),
{
    if s.len() == 0 {
        Map::empty()
    } else {
        fd_map(s.drop_last()).insert(s.last().0, (s.last().1.path@, s.last().1.index as int))
    }
}

/// No descriptor value appears twice in the table.
pub open spec fn distinct_fds(s: Seq<(u64, FdEntry)>) -> bool {
    forall|i: int, j: int| 0 <= i < j < s.len() ==> s[i].0 != s[j].0
}

/// A descriptor is in the denoted map exactly when some table entry carries it.
pub proof fn lemma_fd_map_domain(s: Seq<(u64, FdEntry)>)
    ensures
        forall|fd: u64| #[trigger] fd_map(s).contains_key(fd)
            <==> exists|i: int| 0 <= i < s.len() && s[i].0 == fd,
    decreases s.len(),
{
    if s.len() > 0 {
        lemma_fd_map_domain(s.drop_last());
        assert forall|fd: u64| #[trigger] fd_map(s).contains_key(fd)
            implies exists|i: int| 0 <= i < s.len() && s[i].0 == fd by {
            if fd == s.last().0 {
                assert(s[s.len() - 1].0 == fd);
            } else {
                assert(fd_map(s.drop_last()).contains_key(fd));
                let i = choose|i: int| 0 <= i < s.drop_last().len() && s.drop_last()[i].0 == fd;
                assert(s.drop_last()[i] == s[i]);
                assert(s[i].0 == fd);
            }
        }
        assert forall|fd: u64| exists|i: int| 0 <= i < s.len() && s[i].0 == fd
            implies #[trigger] fd_map(s).contains_key(fd) by {
            let i = choose|i: int| 0 <= i < s.len() && s[i].0 == fd;
            if i < s.len() - 1 {
                assert(s.drop_last()[i].0 == fd);
                assert(exists|k: int| 0 <= k < s.drop_last().len() && s.drop_last()[k].0 == fd);
                assert(fd_map(s.drop_last()).contains_key(fd));
            }
        }
    }
}

/// With distinct descriptors, each table entry is reflected exactly in the map.
pub proof fn lemma_fd_map_entry(s: Seq<(u64, FdEntry)>, i: int)
    requires
        distinct_fds(s),
        0 <= i < s.len(),
    ensures
        fd_map(s).contains_key(s[i].0),
        fd_map(s)[s[i].0] == (s[i].1.path@, s[i].1.index as int),
    decreases s.len(),
{
    if i < s.len() - 1 {
        assert(distinct_fds(s.drop_last())) by {
            assert forall|a: int, b: int| 0 <= a < b < s.drop_last().len()
                implies s.drop_last()[a].0 != s.drop_last()[b].0 by {
                assert(s[a].0 != s[b].0);
            }
        }
        lemma_fd_map_entry(s.drop_last(), i);
        assert(s[i].0 != s.last().0);
    }
}

/// Removing a table entry removes exactly its descriptor from the map.
pub proof fn lemma_fd_map_remove(s: Seq<(u64, FdEntry)>, j: int)
    requires
        distinct_fds(s),
        0 <= j < s.len(),
    ensures
        fd_map(s.remove(j)) == fd_map(s).remove(s[j].0),
    decreases s.len(),
{
    lemma_fd_map_domain(s.drop_last());
    if j == s.len() - 1 {
        assert(s.remove(j) =~= s.drop_last());
        assert(!fd_map(s.drop_last()).contains_key(s[j].0));
        assert(fd_map(s).remove(s[j].0) =~= fd_map(s.drop_last()));
    } else {
        assert(distinct_fds(s.drop_last())) by {
            assert forall|a: int, b: int| 0 <= a < b < s.drop_last().len()
                implies s.drop_last()[a].0 != s.drop_last()[b].0 by {
                assert(s[a].0 != s[b].0);
            }
        }
        lemma_fd_map_remove(s.drop_last(), j);
        assert(s.drop_last()[j] == s[j]);
        assert(s.remove(j).drop_last() =~= s.drop_last().remove(j));
        assert(s.remove(j).last() == s.last());
        assert(s[j].0 != s.last().0);
        assert(fd_map(s.remove(j)) == fd_map(s.drop_last().remove(j)).insert(
            s.last().0,
            (s.last().1.path@, s.last().1.index as int),
        ));
        assert(fd_map(s.drop_last()).remove(s[j].0).insert(
            s.last().0,
            (s.last().1.path@, s.last().1.index as int),
        ) =~= fd_map(s.drop_last()).insert(
            s.last().0,
            (s.last().1.path@, s.last().1.index as int),
        ).remove(s[j].0));
    }
}

/// Find the position of a descriptor in the table.
pub fn find_fd_pos(tab: &Vec<(u64, FdEntry)>, fd: u64) -> (r: Option<usize>)
    ensures
        match r {
            Some(j) => j < tab@.len() && tab@[j as int].0 == fd,
            None => forall|i: int| 0 <= i < tab@.len() ==> tab@[i].0 != fd,
        },
{
    let mut k: usize = 0;
    while k < tab.len()
        invariant
            0 <= k <= tab@.len(),
            forall|i: int| 0 <= i < k ==> tab@[i].0 != fd,
        decreases tab@.len() - k,
    {
        if tab[k].0 == fd {
            return Some(k);
        }
        k += 1;
    }
    None
}

} // verus!
