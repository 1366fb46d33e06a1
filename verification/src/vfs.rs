//! The virtual filesystem facade: construction from a compressed archive,
//! reads by path, and the descriptor table behind `open`, `read_fd` and
//! `close`.

use vstd::prelude::*;

verus! {

use crate::archive::{
    entries_view, index_map_of, lemma_index_map_bounds, lemma_index_map_last_wins, store_of,
    tar_entries, unpack_entries,
};
use crate::bytes::clone_bytes;
use crate::decompress::Decompress;
use crate::table::{
    distinct_fds, fd_map, find_fd_pos, lemma_fd_map_domain, lemma_fd_map_entry,
    lemma_fd_map_remove, lookup_path, path_map, FdEntry,
};

/// A file descriptor: an opaque handle minted by `open`, never reused for
/// the life of the filesystem.
pub type Fd = u64;

/// The construction input: an archive compressed with the codec the chosen
/// strategy decodes.
pub type CompressedArchive = Vec<u8>;

/// Errors surfaced by the virtual filesystem.
#[derive(Debug, Clone, Copy, PartialEq, Eq, Structural)]
pub enum VfsError {
    /// The compressed archive could not be decoded.
    DecompressError,
    /// The decompressed bytes are not a well-formed archive.
    IngestError,
    /// The path is not present in the snapshot.
    FileNotFound,
    /// The descriptor was never issued, or was already closed.
    BadFileDescriptor,
    /// A data index fell outside the data store. The construction-time
    /// invariant rules this out: the contracts of `read` and `read_fd`
    /// show that this error is never returned.
    InternalInconsistency,
}

/// The mathematical state of a `Vfs`.
pub struct VfsView {
    /// The data store: contents of every archive entry, in entry order.
    pub data: Seq<Seq<u8>>,
    /// The path index: each reachable path to its position in `data`.
    pub index: Map<Seq<u8>, int>,
    /// The descriptor table: each open descriptor to the path it was
    /// opened on and that path's position in `data`.
    pub fds: Map<Fd, (Seq<u8>, int)>,
    /// The next descriptor value to be minted.
    pub next_fd: Fd,
}

/// The coupled invariants of a snapshot: every indexed path resolves into
/// the data store, and every open descriptor was minted earlier and agrees
/// with the path index on where its data lives.
pub open spec fn inv(v: VfsView) -> bool {
    &&& forall|p: Seq<u8>| #[trigger] v.index.contains_key(p) ==> 0 <= v.index[p] < v.data.len()
    &&& forall|fd: Fd| #[trigger] v.fds.contains_key(fd)
        ==> fd < v.next_fd && v.index.contains_key(v.fds[fd].0)
            && v.fds[fd].1 == v.index.index(v.fds[fd].0)
}

/// How a successful `open` of `p` changes the state: a fresh descriptor is
/// minted for `p`, and nothing else is touched.
pub open spec fn open_ok(pre: VfsView, post: VfsView, p: Seq<u8>, fd: Fd) -> bool {
    &&& pre.index.contains_key(p)
    &&& fd == pre.next_fd
    &&& post.next_fd == pre.next_fd + 1
    &&& post.data == pre.data
    &&& post.index == pre.index
    &&& post.fds == pre.fds.insert(fd, (p, pre.index[p]))
}

/// How a successful `close` of `fd` changes the state: only that one
/// descriptor disappears.
pub open spec fn close_ok(pre: VfsView, post: VfsView, fd: Fd) -> bool {
    &&& pre.fds.contains_key(fd)
    &&& post.data == pre.data
    &&& post.index == pre.index
    &&& post.next_fd == pre.next_fd
    &&& post.fds == pre.fds.remove(fd)
}

/// The views of a sequence of owned byte vectors.
pub open spec fn views_of(ds: Seq<Vec<u8>>) -> Seq<Seq<u8>> {
    ds.map_values(|d: Vec<u8>| d@)
}

/// The structure holding all the data of the virtual filesystem: the data
/// store and path index, fixed at construction, and the descriptor table
/// with its monotonic counter. Mutation goes through `&mut self`, so
/// callers sharing one filesystem across threads serialize `open` and
/// `close` behind a lock; minting stays monotonic under any such
/// interleaving, so two `open` calls never return the same descriptor
/// (see `lemma_open_fds_distinct`).
#[derive(Debug)]
pub struct Vfs {
    data: Vec<Vec<u8>>,
    paths: Vec<(Vec<u8>, usize)>,
    fds: Vec<(Fd, FdEntry)>,
    fd_count: u64,
}

impl View for Vfs {
    type V = VfsView;

    closed spec fn view(&self) -> VfsView {
        VfsView {
            data: views_of(self.data@),
            index: path_map(self.paths@),
            fds: fd_map(self.fds@),
            next_fd: self.fd_count,
        }
    }
}

impl Vfs {
    /// Representation invariant: no descriptor appears twice in the table.
    pub closed spec fn rep_inv(&self) -> bool {
        distinct_fds(self.fds@)
    }

    /// A well-formed filesystem: representation and state invariants.
    pub open spec fn wf(&self) -> bool {
        self.rep_inv() && inv(self@)
    }

    /// Build a filesystem from a compressed archive: decompress with the
    /// strategy `D`, unpack the tar entries, and index each entry's
    /// contents under its path, a later duplicate path shadowing an
    /// earlier one. No descriptor exists yet and the allocator starts at
    /// zero; on any failure no filesystem is observable.
    pub fn new<D: Decompress>(compressed_archive: CompressedArchive) -> (r: Result<Vfs, VfsError>)
        ensures
            match r {
                Ok(vfs) => D::spec_decompress(compressed_archive@) matches Some(d)
                    && tar_entries(d) matches Some(es) && vfs.wf() && vfs@.data == store_of(es)
                    && vfs@.index == index_map_of(es) && vfs@.fds == Map::<Fd, (Seq<u8>, int)>::empty()
                    && vfs@.next_fd == 0,
                Err(e) => match e {
                    VfsError::DecompressError => D::spec_decompress(compressed_archive@) is None,
                    VfsError::IngestError => D::spec_decompress(compressed_archive@) matches Some(d)
                        && tar_entries(d) is None,
                    _ => false,
                },
            },
    {
        let decompressed = match D::decompress(compressed_archive) {
            Ok(d) => d,
            Err(_) => {
                return Err(VfsError::DecompressError);
            },
        };
        let entries = match unpack_entries(&decompressed) {
            Ok(es) => es,
            Err(_) => {
                return Err(VfsError::IngestError);
            },
        };
        let ghost ev = entries_view(entries@);
        let mut data: Vec<Vec<u8>> = Vec::new();
        let mut paths: Vec<(Vec<u8>, usize)> = Vec::new();
        let mut k: usize = 0;
        while k < entries.len()
            invariant
                0 <= k <= entries@.len(),
                ev == entries_view(entries@),
                data@.len() == k,
                views_of(data@) == store_of(ev.take(k as int)),
                path_map(paths@) == index_map_of(ev.take(k as int)),
            decreases entries@.len() - k,
        {
            let p = clone_bytes(&entries[k].0);
            let d = clone_bytes(&entries[k].1);
            let ix = data.len();
            let ghost data0 = data@;
            let ghost paths0 = paths@;
            data.push(d);
            paths.push((p, ix));
            proof {
                assert(ev[k as int] == (entries@[k as int].0@, entries@[k as int].1@));
                assert(ev.take(k + 1).drop_last() =~= ev.take(k as int));
                assert(ev.take(k + 1).last() == ev[k as int]);
                assert forall|i: int| 0 <= i < k + 1 implies views_of(data@)[i] == store_of(
                    ev.take(k + 1),
                )[i] by {
                    assert(data@[i] == if i < k { data0[i] } else { d });
                    if i < k {
                        assert(views_of(data0)[i] == store_of(ev.take(k as int))[i]);
                    }
                }
                assert(views_of(data@) =~= store_of(ev.take(k + 1)));
                assert(paths@.drop_last() =~= paths0);
                assert(path_map(paths@) == path_map(paths0).insert(p@, ix as int));
            }
            k += 1;
        }
        proof {
            assert(ev.take(entries@.len() as int) =~= ev);
        }
        let vfs = Vfs { data, paths, fds: Vec::new(), fd_count: 0 };
        proof {
            assert(vfs@.fds =~= Map::<Fd, (Seq<u8>, int)>::empty());
            lemma_index_map_bounds(ev);
            assert(vfs@.data.len() == ev.len());
        }
        Ok(vfs)
    }

    /// Read the whole file at `path`, returning an owned copy of its
    /// bytes; a path outside the snapshot fails with `FileNotFound`.
    pub fn read(&self, path: &Vec<u8>) -> (r: Result<Vec<u8>, VfsError>)
        requires
            self.wf(),
        ensures
            match r {
                Ok(d) => self@.index.contains_key(path@) && d@ == self@.data[self@.index[path@]],
                Err(e) => e == VfsError::FileNotFound && !self@.index.contains_key(path@),
            },
    {
        let ix = match lookup_path(&self.paths, path) {
            Some(ix) => ix,
            None => {
                return Err(VfsError::FileNotFound);
            },
        };
        if ix < self.data.len() {
            Ok(clone_bytes(&self.data[ix]))
        } else {
            // ruled out by `wf`; the contract above shows this branch dead
            Err(VfsError::InternalInconsistency)
        }
    }

    /// Open the file at `path`: mint a fresh descriptor for it and record
    /// it in the descriptor table. Each call mints a new descriptor, also
    /// for a path that is already open; a failed call leaves the state,
    /// the allocator included, unchanged.
    pub fn open(&mut self, path: &Vec<u8>) -> (r: Result<Fd, VfsError>)
        requires
            old(self).wf(),
            old(self)@.next_fd < u64::MAX,
        ensures
            final(self).wf(),
            match r {
                Ok(fd) => open_ok(old(self)@, final(self)@, path@, fd),
                Err(e) => e == VfsError::FileNotFound && !old(self)@.index.contains_key(path@)
                    && final(self)@ == old(self)@,
            },
    {
        let ix = match lookup_path(&self.paths, path) {
            Some(ix) => ix,
            None => {
                return Err(VfsError::FileNotFound);
            },
        };
        let fd = self.fd_count;
        self.fd_count = fd + 1;
        let entry = FdEntry { path: clone_bytes(path), index: ix };
        let ghost fds0 = self.fds@;
        self.fds.push((fd, entry));
        proof {
            lemma_fd_map_domain(fds0);
            assert forall|i: int| 0 <= i < fds0.len() implies fds0[i].0 != fd by {
                assert(0 <= i < fds0.len() && fds0[i].0 == fds0[i].0);
                assert(fd_map(fds0).contains_key(fds0[i].0));
                assert(old(self)@.fds.contains_key(fds0[i].0));
            }
            assert(self.fds@.drop_last() =~= fds0);
            assert(fd_map(self.fds@) == fd_map(fds0).insert(fd, (path@, ix as int)));
            assert(distinct_fds(self.fds@)) by {
                assert forall|a: int, b: int| 0 <= a < b < self.fds@.len()
                    implies self.fds@[a].0 != self.fds@[b].0 by {
                    assert(self.fds@[a] == fds0[a]);
                    if b < self.fds@.len() - 1 {
                        assert(self.fds@[b] == fds0[b]);
                    }
                }
            }
            assert(self@.index == old(self)@.index);
            assert(self@.data == old(self)@.data);
            assert forall|f: Fd| #[trigger] self@.fds.contains_key(f)
                implies f < self@.next_fd && self@.index.contains_key(self@.fds[f].0)
                    && self@.fds[f].1 == self@.index.index(self@.fds[f].0) by {
                if f != fd {
                    assert(old(self)@.fds.contains_key(f));
                    assert(self@.fds[f] == old(self)@.fds[f]);
                }
            }
        }
        Ok(fd)
    }

    /// Read the whole file behind an open descriptor; a descriptor that
    /// was never issued, or was already closed, fails with
    /// `BadFileDescriptor`.
    pub fn read_fd(&self, fd: Fd) -> (r: Result<Vec<u8>, VfsError>)
        requires
            self.wf(),
        ensures
            match r {
                Ok(d) => self@.fds.contains_key(fd) && d@ == self@.data[self@.fds[fd].1],
                Err(e) => e == VfsError::BadFileDescriptor && !self@.fds.contains_key(fd),
            },
    {
        let j = match find_fd_pos(&self.fds, fd) {
            Some(j) => j,
            None => {
                proof {
                    lemma_fd_map_domain(self.fds@);
                }
                return Err(VfsError::BadFileDescriptor);
            },
        };
        proof {
            lemma_fd_map_entry(self.fds@, j as int);
        }
        let ix = self.fds[j].1.index;
        if ix < self.data.len() {
            Ok(clone_bytes(&self.data[ix]))
        } else {
            // ruled out by `wf`; the contract above shows this branch dead
            Err(VfsError::InternalInconsistency)
        }
    }

    /// Close an open descriptor: it alone leaves the table, so other
    /// descriptors on the same path, and reads by path, are unaffected. A
    /// descriptor that was never issued, or was already closed, fails with
    /// `BadFileDescriptor`.
    pub fn close(&mut self, fd: Fd) -> (r: Result<(), VfsError>)
        requires
            old(self).wf(),
        ensures
            final(self).wf(),
            match r {
                Ok(_) => close_ok(old(self)@, final(self)@, fd),
                Err(e) => e == VfsError::BadFileDescriptor && !old(self)@.fds.contains_key(fd)
                    && final(self)@ == old(self)@,
            },
    {
        let j = match find_fd_pos(&self.fds, fd) {
            Some(j) => j,
            None => {
                proof {
                    lemma_fd_map_domain(self.fds@);
                }
                return Err(VfsError::BadFileDescriptor);
            },
        };
        let ghost fds0 = self.fds@;
        proof {
            lemma_fd_map_domain(fds0);
            lemma_fd_map_remove(fds0, j as int);
        }
        self.fds.remove(j);
        proof {
            assert(distinct_fds(self.fds@)) by {
                assert forall|a: int, b: int| 0 <= a < b < self.fds@.len()
                    implies self.fds@[a].0 != self.fds@[b].0 by {
                    if a < j {
                        assert(self.fds@[a] == fds0[a]);
                    } else {
                        assert(self.fds@[a] == fds0[a + 1]);
                    }
                    if b < j {
                        assert(self.fds@[b] == fds0[b]);
                    } else {
                        assert(self.fds@[b] == fds0[b + 1]);
                    }
                }
            }
            assert(self@.index == old(self)@.index);
            assert(self@.data == old(self)@.data);
            assert(self@.fds == old(self)@.fds.remove(fd));
            assert forall|f: Fd| #[trigger] self@.fds.contains_key(f)
                implies f < self@.next_fd && self@.index.contains_key(self@.fds[f].0)
                    && self@.fds[f].1 == self@.index.index(self@.fds[f].0) by {
                assert(old(self)@.fds.contains_key(f));
                assert(self@.fds[f] == old(self)@.fds[f]);
            }
        }
        Ok(())
    }

    /// The descriptors currently open on `path`, in no promised order:
    /// exactly the table entries recorded for that path, each once.
    pub fn open_fds(&self, path: &Vec<u8>) -> (r: Vec<Fd>)
        requires
            self.wf(),
        ensures
            forall|fd: Fd| #[trigger] r@.contains(fd)
                <==> self@.fds.contains_key(fd) && self@.fds[fd].0 == path@,
            forall|a: int, b: int| 0 <= a < b < r@.len() ==> r@[a] != r@[b],
    {
        let mut r: Vec<Fd> = Vec::new();
        let mut k: usize = 0;
        proof {
            lemma_fd_map_domain(self.fds@);
        }
        while k < self.fds.len()
            invariant
                self.wf(),
                0 <= k <= self.fds@.len(),
                forall|fd: Fd| #[trigger] r@.contains(fd)
                    <==> exists|i: int| 0 <= i < k && self.fds@[i].0 == fd && self.fds@[i].1.path@
                        == path@,
                forall|a: int, b: int| 0 <= a < b < r@.len() ==> r@[a] != r@[b],
            decreases self.fds@.len() - k,
        {
            let ghost r0 = r@;
            if crate::bytes::bytes_eq(&self.fds[k].1.path, path) {
                proof {
                    assert(distinct_fds(self.fds@));
                }
                r.push(self.fds[k].0);
                proof {
                    assert forall|a: int, b: int| 0 <= a < b < r@.len()
                        implies r@[a] != r@[b] by {
                        if b == r@.len() - 1 {
                            assert(r0[a] == r@[a]);
                            assert(r0.contains(r0[a]));
                            let i = choose|i: int| 0 <= i < k && self.fds@[i].0 == r0[a]
                                && self.fds@[i].1.path@ == path@;
                            assert(self.fds@[i].0 != self.fds@[k as int].0);
                        }
                    }
                    assert forall|fd: Fd| #[trigger] r@.contains(fd) implies exists|i: int|
                        0 <= i < k + 1 && self.fds@[i].0 == fd && self.fds@[i].1.path@ == path@ by {
                        let w = choose|w: int| 0 <= w < r@.len() && r@[w] == fd;
                        if w < r0.len() {
                            assert(r0.contains(fd));
                        } else {
                            assert(self.fds@[k as int].0 == fd);
                        }
                    }
                    assert forall|fd: Fd| exists|i: int|
                        0 <= i < k + 1 && self.fds@[i].0 == fd && self.fds@[i].1.path@ == path@
                        implies #[trigger] r@.contains(fd) by {
                        let i = choose|i: int| 0 <= i < k + 1 && self.fds@[i].0 == fd
                            && self.fds@[i].1.path@ == path@;
                        if i < k {
                            assert(r0.contains(fd));
                            let w = choose|w: int| 0 <= w < r0.len() && r0[w] == fd;
                            assert(r@[w] == fd);
                        } else {
                            assert(r@[r@.len() - 1] == fd);
                        }
                    }
                }
            } else {
                proof {
                    assert forall|fd: Fd| #[trigger] r@.contains(fd) implies exists|i: int|
                        0 <= i < k + 1 && self.fds@[i].0 == fd && self.fds@[i].1.path@ == path@ by {
                        let i = choose|i: int| 0 <= i < k && self.fds@[i].0 == fd
                            && self.fds@[i].1.path@ == path@;
                        assert(0 <= i < k + 1 && self.fds@[i].0 == fd && self.fds@[i].1.path@
                            == path@);
                    }
                    assert forall|fd: Fd| exists|i: int|
                        0 <= i < k + 1 && self.fds@[i].0 == fd && self.fds@[i].1.path@ == path@
                        implies #[trigger] r@.contains(fd) by {
                        let i = choose|i: int| 0 <= i < k + 1 && self.fds@[i].0 == fd
                            && self.fds@[i].1.path@ == path@;
                        assert(i < k);
                    }
                }
            }
            k += 1;
        }
        proof {
            assert forall|fd: Fd| #[trigger] r@.contains(fd)
                implies self@.fds.contains_key(fd) && self@.fds[fd].0 == path@ by {
                let i = choose|i: int| 0 <= i < self.fds@.len() && self.fds@[i].0 == fd
                    && self.fds@[i].1.path@ == path@;
                lemma_fd_map_entry(self.fds@, i);
            }
            assert forall|fd: Fd| self@.fds.contains_key(fd) && self@.fds[fd].0 == path@
                implies #[trigger] r@.contains(fd) by {
                let i = choose|i: int| 0 <= i < self.fds@.len() && self.fds@[i].0 == fd;
                lemma_fd_map_entry(self.fds@, i);
                assert(self.fds@[i].1.path@ == path@);
            }
        }
        r
    }
}

/// A descriptor value the allocator has not yet issued is never open.
pub proof fn lemma_unissued_fd_not_open(v: VfsView, fd: Fd)
    requires
        inv(v),
        v.next_fd <= fd,
    ensures
        !v.fds.contains_key(fd),
{
}

/// Descriptors are never reused: two successful `open` calls, the second
/// starting from an allocator state no earlier than where the first left
/// it, yield distinct descriptors, however many other operations come
/// between.
pub proof fn lemma_open_fds_distinct(
    v0: VfsView,
    v1: VfsView,
    va: VfsView,
    vb: VfsView,
    p: Seq<u8>,
    q: Seq<u8>,
    fd1: Fd,
    fd2: Fd,
)
    requires
        open_ok(v0, v1, p, fd1),
        open_ok(va, vb, q, fd2),
        v1.next_fd <= va.next_fd,
    ensures
        fd1 < fd2,
{
}

/// Opening one path twice: the two descriptors are distinct, both resolve
/// to the same data, and closing the first leaves the second open and
/// untouched, with the data store and path index intact.
pub proof fn lemma_two_opens_independent(
    v0: VfsView,
    v1: VfsView,
    v2: VfsView,
    v3: VfsView,
    p: Seq<u8>,
    fd1: Fd,
    fd2: Fd,
)
    requires
        open_ok(v0, v1, p, fd1),
        open_ok(v1, v2, p, fd2),
        close_ok(v2, v3, fd1),
    ensures
        fd1 != fd2,
        v2.fds.contains_key(fd1) && v2.fds.contains_key(fd2),
        v2.fds[fd1] == v2.fds[fd2],
        v3.fds.contains_key(fd2) && v3.fds[fd2] == v2.fds[fd2],
        !v3.fds.contains_key(fd1),
        v3.data == v2.data && v3.index == v2.index,
{
}

/// After construction from the entry sequence `es`, a path carried by
/// entry `j` and by no later entry resolves exactly to that entry's
/// contents: what `read` returns is the bytes of the last archive entry
/// with that path.
pub proof fn lemma_construction_read(es: Seq<(Seq<u8>, Seq<u8>)>, v: VfsView, j: int)
    requires
        v.data == store_of(es),
        v.index == index_map_of(es),
        0 <= j < es.len(),
        forall|l: int| j < l < es.len() ==> es[l].0 != es[j].0,
    ensures
        v.index.contains_key(es[j].0),
        v.data[v.index[es[j].0]] == es[j].1,
{
    lemma_index_map_last_wins(es, j);
}

} // verus!
