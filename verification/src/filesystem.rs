//! A model of a filesystem reconstructed from a terminal session: inodes
//! with parent links, per-directory child listings, a working directory,
//! and recursive size accounting over the tree.

use vstd::prelude::*;

verus! {

/// An inode number; the root is always zero, and children always carry
/// larger numbers than their parents.
pub type FsFileId = usize;

/// What an inode is.
#[derive(Debug, Clone, Copy, PartialEq, Eq, Structural)]
pub enum FsFileType {
    Directory,
    File,
}

/// One inode: its kind, name, parent, and (for files) its size; directory
/// sizes are filled in by `finalize`.
#[derive(Debug)]
pub struct FsFile {
    pub ftype: FsFileType,
    pub name: String,
    pub parent: FsFileId,
    pub size: u64,
}

impl FsFile {
    /// The inode is a directory.
    pub fn is_directory(&self) -> (r: bool)
        ensures
            r == (self.ftype is Directory),
    {
        self.ftype == FsFileType::Directory
    }
}

/// The inode number of a node's parent.
pub open spec fn parent_of(inodes: Seq<FsFile>, i: int) -> int {
    inodes[i].parent as int
}

/// The filesystem model.
pub struct FileSystem {
    free_id: FsFileId,
    inodes: Vec<FsFile>,
    children: Vec<Vec<(String, FsFileId)>>,
    pwd: FsFileId,
    total_size: u64,
}

impl FileSystem {
    pub closed spec fn spec_inodes(self) -> Seq<FsFile> {
        self.inodes@
    }

    pub closed spec fn spec_children(self) -> Seq<Seq<(String, FsFileId)>> {
        self.children@.map_values(|v: Vec<(String, FsFileId)>| v@)
    }

    pub closed spec fn spec_free_id(self) -> FsFileId {
        self.free_id
    }

    pub closed spec fn spec_pwd(self) -> FsFileId {
        self.pwd
    }

    pub closed spec fn spec_total_size(self) -> u64 {
        self.total_size
    }

    /// Structural soundness: inode numbers grow downwards from the root,
    /// listings agree with parent links, and names are unique per
    /// directory.
    pub open spec fn wf(self) -> bool {
        let inodes = self.spec_inodes();
        let children = self.spec_children();
        &&& inodes.len() == children.len()
        &&& self.spec_free_id() == inodes.len()
        &&& 1 <= inodes.len()
        &&& inodes[0].ftype is Directory
        &&& inodes[0].parent == 0
        &&& self.spec_pwd() < inodes.len()
        &&& inodes[self.spec_pwd() as int].ftype is Directory
        &&& forall|i: int| 1 <= i < inodes.len() ==> (#[trigger] inodes[i]).parent < i
        &&& forall|i: int|
            0 <= i < inodes.len() ==> inodes[#[trigger] parent_of(inodes, i)].ftype
                is Directory
        &&& forall|i: int, k: int|
            0 <= i < children.len() && 0 <= k < children[i].len() ==> {
                let (_, cid) = (#[trigger] children[i][k]);
                &&& i < cid < inodes.len()
                &&& inodes[cid as int].parent == i
            }
        &&& forall|i: int, k1: int, k2: int|
            0 <= i < children.len() && 0 <= k1 < k2 < children[i].len() ==> (#[trigger] children[
                i
            ][k1]).0@ != (#[trigger] children[i][k2]).0@
        &&& forall|i: int|
            0 <= i < inodes.len() && (#[trigger] inodes[i]).ftype is File ==> children[i].len()
                == 0
    }

    /// A fresh filesystem: one root directory, which is the working
    /// directory, on a disk of the given capacity.
    pub fn new(total_size: u64) -> (fs: FileSystem)
        ensures
            fs.wf(),
            fs.spec_inodes().len() == 1,
            fs.spec_children()[0].len() == 0,
            fs.spec_pwd() == 0,
            fs.spec_total_size() == total_size,
            fs.spec_inodes()[0].size == 0,
    {
        let mut inodes: Vec<FsFile> = Vec::new();
        inodes.push(
            FsFile {
                ftype: FsFileType::Directory,
                name: "/".to_owned(),
                parent: 0,
                size: 0,
            },
        );
        let mut children: Vec<Vec<(String, FsFileId)>> = Vec::new();
        children.push(Vec::new());
        let fs = FileSystem { free_id: 1, inodes, children, pwd: 0, total_size };
        proof {
            assert(fs.spec_children() =~= seq![Seq::<(String, FsFileId)>::empty()]);
        }
        fs
    }

    /// Allocates the next inode number.
    fn new_fsid(&mut self) -> (id: FsFileId)
        requires
            old(self).free_id < usize::MAX,
        ensures
            id == old(self).free_id,
            final(self).free_id == old(self).free_id + 1,
            final(self).inodes == old(self).inodes,
            final(self).children == old(self).children,
            final(self).pwd == old(self).pwd,
            final(self).total_size == old(self).total_size,
    {
        let new = self.free_id;
        self.free_id = self.free_id + 1;
        new
    }

    /// The position of a child with the given name in a listing, if any.
    pub open spec fn child_slot(listing: Seq<(String, FsFileId)>, name: Seq<char>) -> Option<
        int,
    > {
        if exists|k: int| 0 <= k < listing.len() && (#[trigger] listing[k]).0@ == name {
            Some(choose|k: int| 0 <= k < listing.len() && (#[trigger] listing[k]).0@ == name)
        } else {
            None
        }
    }

    /// Finds the position of a child with the given name in the working
    /// directory's listing.
    fn find_child(&self, name: &String) -> (r: Option<usize>)
        requires
            self.wf(),
        ensures
            match r {
                Some(k) => 0 <= k < self.spec_children()[self.spec_pwd() as int].len()
                    && self.spec_children()[self.spec_pwd() as int][k as int].0@ == name@,
                None => forall|k: int|
                    0 <= k < self.spec_children()[self.spec_pwd() as int].len() ==> (
                    #[trigger] self.spec_children()[self.spec_pwd() as int][k]).0@ != name@,
            },
    {
        let listing = &self.children[self.pwd];
        let mut k: usize = 0;
        while k < listing.len()
            invariant
                listing@ == self.spec_children()[self.spec_pwd() as int],
                k <= listing@.len(),
                forall|j: int| 0 <= j < k ==> (#[trigger] listing@[j]).0@ != name@,
            decreases listing@.len() - k,
        {
            let entry = &listing[k];
            if entry.0 == *name {
                return Some(k);
            }
            k += 1;
        }
        None
    }

    /// Creates a directory with the given name under the working directory
    /// and returns its inode number. A listing entry of the same name is
    /// replaced; otherwise the entry is appended.
    pub fn create_dir(&mut self, name: String) -> (fsid: FsFileId)
        requires
            old(self).wf(),
            old(self).spec_inodes().len() < usize::MAX,
        ensures
            final(self).wf(),
            fsid == old(self).spec_inodes().len(),
            final(self).spec_pwd() == old(self).spec_pwd(),
            final(self).spec_total_size() == old(self).spec_total_size(),
            final(self).spec_inodes() == old(self).spec_inodes().push(
                FsFile {
                    ftype: FsFileType::Directory,
                    name: name,
                    parent: old(self).spec_pwd(),
                    size: 0,
                },
            ),
            ({
                let pwd = old(self).spec_pwd() as int;
                let old_listing = old(self).spec_children()[pwd];
                let entry = (name, fsid);
                final(self).spec_children() == old(self).spec_children().push(
                    Seq::<(String, FsFileId)>::empty(),
                ).update(
                    pwd,
                    match Self::child_slot(old_listing, name@) {
                        Some(k) => old_listing.update(k, entry),
                        None => old_listing.push(entry),
                    },
                )
            }),
    {
        let fsid = self.new_fsid();
        let dir = FsFile {
            ftype: FsFileType::Directory,
            name: name.clone(),
            parent: self.pwd,
            size: 0,
        };
        self.inodes.push(dir);
        self.children.push(Vec::new());
        proof {
            assert(self.spec_children() =~= old(self).spec_children().push(
                Seq::<(String, FsFileId)>::empty(),
            ));
            let inodes = self.spec_inodes();
            let children = self.spec_children();
            let oldc = old(self).spec_children();
            assert forall|i: int, k: int|
                0 <= i < children.len() && 0 <= k < children[i].len() implies {
                let (_, cid) = (#[trigger] children[i][k]);
                &&& i < cid < inodes.len()
                &&& inodes[cid as int].parent == i
            } by {
                assert(children[i] == oldc[i]);
                assert(children[i][k] == oldc[i][k]);
            }
            assert forall|i: int, k1: int, k2: int|
                0 <= i < children.len() && 0 <= k1 < k2 < children[i].len() implies (
            #[trigger] children[i][k1]).0@ != (#[trigger] children[i][k2]).0@ by {
                assert(children[i] == oldc[i]);
            }
            assert forall|i: int|
                0 <= i < inodes.len() && (#[trigger] inodes[i]).ftype is File implies children[
                i
            ].len() == 0 by {
                if i < oldc.len() {
                    assert(children[i] == oldc[i]);
                    assert(inodes[i] == old(self).spec_inodes()[i]);
                }
            }
            let oldi = old(self).spec_inodes();
            assert forall|i: int|
                0 <= i < inodes.len() implies inodes[#[trigger] parent_of(inodes, i)].ftype
                is Directory by {
                if i < oldi.len() {
                    assert(inodes[i] == oldi[i]);
                    assert(oldi[parent_of(oldi, i)].ftype is Directory);
                    assert(parent_of(inodes, i) == parent_of(oldi, i));
                } else {
                    assert(parent_of(inodes, i) == old(self).spec_pwd() as int);
                }
            }
            assert(self.wf());
        }
        self.register_child(name, fsid);
        fsid
    }

    /// Registers a listing entry for a freshly pushed inode under the
    /// working directory, replacing an entry of the same name.
    fn register_child(&mut self, name: String, fsid: FsFileId)
        requires
            old(self).wf(),
            fsid == old(self).spec_inodes().len() - 1,
            old(self).spec_pwd() < fsid,
            old(self).spec_inodes()[fsid as int].parent == old(self).spec_pwd(),
            old(self).spec_children()[fsid as int].len() == 0,
        ensures
            final(self).wf(),
            final(self).spec_inodes() == old(self).spec_inodes(),
            final(self).spec_pwd() == old(self).spec_pwd(),
            final(self).spec_total_size() == old(self).spec_total_size(),
            final(self).free_id == old(self).free_id,
            ({
                let pwd = old(self).spec_pwd() as int;
                let old_listing = old(self).spec_children()[pwd];
                let entry = (name, fsid);
                final(self).spec_children() == old(self).spec_children().update(
                    pwd,
                    match Self::child_slot(old_listing, name@) {
                        Some(k) => old_listing.update(k, entry),
                        None => old_listing.push(entry),
                    },
                )
            }),
    {
        let slot = self.find_child(&name);
        let mut listing = self.children.remove(self.pwd);
        let ghost old_listing = listing@;
        match slot {
            Some(k) => {
                listing[k] = (name, fsid);
                proof {
                    let s = Self::child_slot(old_listing, listing@[k as int].0@);
                    assert(s is Some);
                    let k2 = s.unwrap();
                    assert(old_listing[k2].0@ == old_listing[k as int].0@);
                    assert(k2 == k as int);
                }
            },
            None => {
                listing.push((name, fsid));
                proof {
                    assert(Self::child_slot(old_listing, listing@[listing@.len() - 1].0@)
                        is None);
                }
            },
        }
        let pwd = self.pwd;
        self.children.insert(pwd, listing);
        proof {
            assert(final(self).spec_children() =~= old(self).spec_children().update(
                old(self).spec_pwd() as int,
                listing@,
            ));
            let inodes = final(self).spec_inodes();
            let children = final(self).spec_children();
            let oldc = old(self).spec_children();
            let p = old(self).spec_pwd() as int;
            assert forall|i: int, k: int|
                0 <= i < children.len() && 0 <= k < children[i].len() implies {
                let (_, cid) = (#[trigger] children[i][k]);
                &&& i < cid < inodes.len()
                &&& inodes[cid as int].parent == i
            } by {
                if i == p {
                    if listing@[k] != (name, fsid) {
                        assert(listing@[k] == oldc[p][k]);
                    }
                } else {
                    assert(children[i][k] == oldc[i][k]);
                }
            }
            assert forall|i: int, k1: int, k2: int|
                0 <= i < children.len() && 0 <= k1 < k2 < children[i].len() implies (
            #[trigger] children[i][k1]).0@ != (#[trigger] children[i][k2]).0@ by {
                if i == p {
                    match Self::child_slot(old_listing, name@) {
                        Some(kk) => {
                            assert(listing@ == old_listing.update(kk, (name, fsid)));
                            assert(listing@[kk].0@ == old_listing[kk].0@);
                            assert forall|j: int|
                                0 <= j < listing@.len() implies (#[trigger] listing@[j]).0@
                                == old_listing[j].0@ by {}
                            assert(oldc[p][k1].0@ != oldc[p][k2].0@);
                        },
                        None => {
                            assert(listing@ == old_listing.push((name, fsid)));
                            if k2 == listing@.len() - 1 {
                                assert(listing@[k1] == old_listing[k1]);
                                assert(old_listing[k1].0@ != name@);
                            } else {
                                assert(listing@[k1] == old_listing[k1]);
                                assert(listing@[k2] == old_listing[k2]);
                            }
                        },
                    }
                } else {
                    assert(children[i][k1] == oldc[i][k1]);
                    assert(children[i][k2] == oldc[i][k2]);
                }
            }
            assert forall|i: int|
                0 <= i < inodes.len() && (#[trigger] inodes[i]).ftype is File implies children[
                i
            ].len() == 0 by {
                if i != p {
                    assert(children[i] == oldc[i]);
                }
            }
        }
    }

    /// Changes the working directory: `..` moves to the parent, a known
    /// directory name moves there, and an unknown name creates the
    /// directory first. A name that designates a file is a caller error.
    pub fn cd(&mut self, dir_name: String)
        requires
            old(self).wf(),
            old(self).spec_inodes().len() < usize::MAX,
            forall|k: int|
                0 <= k < old(self).spec_children()[old(self).spec_pwd() as int].len() && (
                #[trigger] old(self).spec_children()[old(self).spec_pwd() as int][k]).0@
                    == dir_name@ ==> old(self).spec_inodes()[old(self).spec_children()[old(
                    self,
                ).spec_pwd() as int][k].1 as int].ftype is Directory,
        ensures
            final(self).wf(),
            final(self).spec_total_size() == old(self).spec_total_size(),
            ({
                let pwd = old(self).spec_pwd() as int;
                let old_listing = old(self).spec_children()[pwd];
                if dir_name@ == seq!['.', '.'] {
                    &&& final(self).spec_inodes() == old(self).spec_inodes()
                    &&& final(self).spec_children() == old(self).spec_children()
                    &&& final(self).spec_pwd() == old(self).spec_inodes()[pwd].parent
                } else {
                    match Self::child_slot(old_listing, dir_name@) {
                        Some(k) => {
                            &&& final(self).spec_inodes() == old(self).spec_inodes()
                            &&& final(self).spec_children() == old(self).spec_children()
                            &&& final(self).spec_pwd() == old_listing[k].1
                        },
                        None => {
                            &&& final(self).spec_pwd() == old(self).spec_inodes().len()
                            &&& final(self).spec_inodes() == old(self).spec_inodes().push(
                                FsFile {
                                    ftype: FsFileType::Directory,
                                    name: dir_name,
                                    parent: old(self).spec_pwd(),
                                    size: 0,
                                },
                            )
                            &&& final(self).spec_children() == old(self).spec_children().push(
                                Seq::<(String, FsFileId)>::empty(),
                            ).update(pwd, old_listing.push((dir_name, old(self).spec_inodes().len() as usize)))
                        },
                    }
                }
            }),
    {
        let dotdot = "..".to_owned();
        proof {
            reveal_strlit("..");
            assert(dotdot@ =~= seq!['.', '.']);
        }
        if dir_name == dotdot {
            proof {
                let oldi = old(self).spec_inodes();
                let p = old(self).spec_pwd() as int;
                assert(oldi[parent_of(oldi, p)].ftype is Directory);
            }
            self.pwd = self.inodes[self.pwd].parent;
            return ;
        }
        match self.find_child(&dir_name) {
            Some(k) => {
                let entry = &self.children[self.pwd][k];
                let child_fsid = entry.1;
                proof {
                    let pwd = old(self).spec_pwd() as int;
                    let old_listing = old(self).spec_children()[pwd];
                    let slot = Self::child_slot(old_listing, dir_name@);
                    assert(slot is Some);
                    let k2 = slot.unwrap();
                    assert(old_listing[k2].0@ == old_listing[k as int].0@);
                    assert(k2 == k as int);
                    assert(old(self).spec_inodes()[child_fsid as int].ftype is Directory);
                }
                self.pwd = child_fsid;
                proof {
                    assert(self.wf());
                }
            },
            None => {
                proof {
                    assert(Self::child_slot(
                        old(self).spec_children()[old(self).spec_pwd() as int],
                        dir_name@,
                    ) is None);
                }
                let new_fsid = self.create_dir(dir_name);
                self.pwd = new_fsid;
                proof {
                    assert(self.spec_inodes()[self.spec_pwd() as int].ftype is Directory);
                    assert(self.wf());
                }
            },
        }
    }

    /// Records a file of the given size under the working directory. A
    /// listing entry of the same name is replaced; otherwise the entry is
    /// appended.
    pub fn put_file(&mut self, name: String, size: u64)
        requires
            old(self).wf(),
            old(self).spec_inodes().len() < usize::MAX,
        ensures
            final(self).wf(),
            final(self).spec_pwd() == old(self).spec_pwd(),
            final(self).spec_total_size() == old(self).spec_total_size(),
            final(self).spec_inodes() == old(self).spec_inodes().push(
                FsFile {
                    ftype: FsFileType::File,
                    name: name,
                    parent: old(self).spec_pwd(),
                    size: size,
                },
            ),
            ({
                let pwd = old(self).spec_pwd() as int;
                let old_listing = old(self).spec_children()[pwd];
                let entry = (name, old(self).spec_inodes().len() as usize);
                final(self).spec_children() == old(self).spec_children().push(
                    Seq::<(String, FsFileId)>::empty(),
                ).update(
                    pwd,
                    match Self::child_slot(old_listing, name@) {
                        Some(k) => old_listing.update(k, entry),
                        None => old_listing.push(entry),
                    },
                )
            }),
    {
        let fsid = self.new_fsid();
        let file = FsFile {
            ftype: FsFileType::File,
            name: name.clone(),
            parent: self.pwd,
            size,
        };
        self.inodes.push(file);
        self.children.push(Vec::new());
        proof {
            assert(self.spec_children() =~= old(self).spec_children().push(
                Seq::<(String, FsFileId)>::empty(),
            ));
            let inodes = self.spec_inodes();
            let children = self.spec_children();
            let oldc = old(self).spec_children();
            assert forall|i: int, k: int|
                0 <= i < children.len() && 0 <= k < children[i].len() implies {
                let (_, cid) = (#[trigger] children[i][k]);
                &&& i < cid < inodes.len()
                &&& inodes[cid as int].parent == i
            } by {
                assert(children[i] == oldc[i]);
                assert(children[i][k] == oldc[i][k]);
            }
            assert forall|i: int, k1: int, k2: int|
                0 <= i < children.len() && 0 <= k1 < k2 < children[i].len() implies (
            #[trigger] children[i][k1]).0@ != (#[trigger] children[i][k2]).0@ by {
                assert(children[i] == oldc[i]);
            }
            assert forall|i: int|
                0 <= i < inodes.len() && (#[trigger] inodes[i]).ftype is File implies children[
                i
            ].len() == 0 by {
                if i < oldc.len() {
                    assert(children[i] == oldc[i]);
                    assert(inodes[i] == old(self).spec_inodes()[i]);
                }
            }
            let oldi = old(self).spec_inodes();
            assert forall|i: int|
                0 <= i < inodes.len() implies inodes[#[trigger] parent_of(inodes, i)].ftype
                is Directory by {
                if i < oldi.len() {
                    assert(inodes[i] == oldi[i]);
                    assert(oldi[parent_of(oldi, i)].ftype is Directory);
                    assert(parent_of(inodes, i) == parent_of(oldi, i));
                } else {
                    assert(parent_of(inodes, i) == old(self).spec_pwd() as int);
                }
            }
            assert(self.wf());
        }
        self.register_child(name, fsid);
    }
}

/// The listing views of the children table.
pub open spec fn kid_views(children: Vec<Vec<(String, FsFileId)>>) -> Seq<Seq<(String, FsFileId)>> {
    children@.map_values(|v: Vec<(String, FsFileId)>| v@)
}

/// The structural facts the size computations rely on: parallel tables,
/// listings pointing strictly downwards to nodes of matching parent, and
/// files having no listings.
pub open spec fn struct_ok(inodes: Seq<FsFile>, children: Seq<Seq<(String, FsFileId)>>) -> bool {
    &&& inodes.len() == children.len()
    &&& forall|i: int, k: int|
        0 <= i < children.len() && 0 <= k < children[i].len() ==> {
            let (_, cid) = (#[trigger] children[i][k]);
            i < cid < inodes.len()
        }
    &&& forall|i: int|
        0 <= i < inodes.len() && (#[trigger] inodes[i]).ftype is File ==> children[i].len() == 0
}

/// One listing edge: `b` is listed among the children of `a`.
pub open spec fn listing_edge(children: Seq<Seq<(String, FsFileId)>>, a: int, b: int) -> bool {
    &&& 0 <= a < children.len()
    &&& a < b < children.len()
    &&& exists|k: int| 0 <= k < children[a].len() && (#[trigger] children[a][k]).1 == b
}

/// A chain of listing edges.
pub open spec fn is_listing_path(children: Seq<Seq<(String, FsFileId)>>, p: Seq<int>) -> bool {
    &&& p.len() >= 1
    &&& forall|i: int| 0 <= i < p.len() - 1 ==> listing_edge(children, #[trigger] p[i], p[i + 1])
}

/// `d` is reachable from `root` by following listing entries downwards
/// (`root` itself included).
pub open spec fn listed_under(children: Seq<Seq<(String, FsFileId)>>, root: int, d: int) -> bool {
    exists|p: Seq<int>|
        is_listing_path(children, p) && p[0] == root && p[p.len() - 1] == d
}

/// Every node is listed under itself.
proof fn lemma_listed_refl(children: Seq<Seq<(String, FsFileId)>>, a: int)
    ensures
        listed_under(children, a, a),
{
    let p = seq![a];
    assert(is_listing_path(children, p) && p[0] == a && p[p.len() - 1] == a);
}

/// Reachability extends backwards across one listing edge.
proof fn lemma_listed_wrap(children: Seq<Seq<(String, FsFileId)>>, a: int, b: int, d: int)
    requires
        listing_edge(children, a, b),
        listed_under(children, b, d),
    ensures
        listed_under(children, a, d),
{
    let p = choose|p: Seq<int>|
        is_listing_path(children, p) && p[0] == b && p[p.len() - 1] == d;
    let q = seq![a] + p;
    assert forall|i: int| 0 <= i < q.len() - 1 implies listing_edge(
        children,
        #[trigger] q[i],
        q[i + 1],
    ) by {
        if i == 0 {
            assert(q[0] == a && q[1] == p[0]);
        } else {
            assert(q[i] == p[i - 1] && q[i + 1] == p[i]);
            assert(listing_edge(children, p[i - 1], p[i]));
        }
    }
    assert(is_listing_path(children, q) && q[0] == a && q[q.len() - 1] == d);
}

/// Reachability to another node passes through some listed child.
proof fn lemma_listed_elim(children: Seq<Seq<(String, FsFileId)>>, a: int, d: int)
    requires
        listed_under(children, a, d),
        d != a,
    ensures
        exists|b: int| #[trigger] listing_edge(children, a, b) && listed_under(children, b, d),
{
    let p = choose|p: Seq<int>|
        is_listing_path(children, p) && p[0] == a && p[p.len() - 1] == d;
    assert(p.len() >= 2);
    let b = p[1];
    assert(listing_edge(children, p[0], p[1]));
    let q = p.skip(1);
    assert forall|i: int| 0 <= i < q.len() - 1 implies listing_edge(
        children,
        #[trigger] q[i],
        q[i + 1],
    ) by {
        assert(listing_edge(children, p[i + 1], p[i + 2]));
    }
    assert(is_listing_path(children, q) && q[0] == b && q[q.len() - 1] == d);
    assert(listed_under(children, b, d));
}

/// Nothing but a leaf itself is listed under it.
proof fn lemma_listed_under_leaf(children: Seq<Seq<(String, FsFileId)>>, a: int, d: int)
    requires
        0 <= a < children.len(),
        children[a].len() == 0,
        listed_under(children, a, d),
    ensures
        d == a,
{
    if d != a {
        lemma_listed_elim(children, a, d);
        let b = choose|b: int|
            #[trigger] listing_edge(children, a, b) && listed_under(children, b, d);
        let k = choose|k: int| 0 <= k < children[a].len() && (#[trigger] children[a][k]).1 == b;
        assert(false);
    }
}

/// The recursive size of a node: a file's recorded size, or the sum of the
/// recursive sizes of a directory's listed children.
pub open spec fn node_size(
    inodes: Seq<FsFile>,
    children: Seq<Seq<(String, FsFileId)>>,
    id: int,
) -> int
    decreases inodes.len() - id, 1int, 0int,
{
    if !(0 <= id < inodes.len() && inodes.len() == children.len()) {
        0
    } else if inodes[id].ftype is File {
        inodes[id].size as int
    } else {
        list_size(inodes, children, children[id], id)
    }
}

/// The summed recursive size of the listed children in `lst` of node `id`.
pub open spec fn list_size(
    inodes: Seq<FsFile>,
    children: Seq<Seq<(String, FsFileId)>>,
    lst: Seq<(String, FsFileId)>,
    id: int,
) -> int
    decreases inodes.len() - id, 0int, lst.len(),
{
    if lst.len() == 0 {
        0
    } else {
        entry_size(inodes, children, lst[0], id) + list_size(
            inodes,
            children,
            lst.drop_first(),
            id,
        )
    }
}

/// The contribution of one listing entry.
pub open spec fn entry_size(
    inodes: Seq<FsFile>,
    children: Seq<Seq<(String, FsFileId)>>,
    entry: (String, FsFileId),
    id: int,
) -> int
    decreases inodes.len() - id, 0int, 0int,
{
    let cid = entry.1 as int;
    if id < cid < inodes.len() {
        node_size(inodes, children, cid)
    } else {
        0
    }
}

/// Two inode tables that agree on kinds, parents, and file sizes yield the
/// same recursive sizes.
pub open spec fn frame_ok(a: Seq<FsFile>, b: Seq<FsFile>) -> bool {
    &&& a.len() == b.len()
    &&& forall|i: int|
        0 <= i < a.len() ==> (#[trigger] b[i]).ftype == a[i].ftype && b[i].name@ == a[i].name@
            && b[i].parent == a[i].parent && (a[i].ftype is File ==> b[i].size == a[i].size)
}

proof fn lemma_node_size_frame(
    a: Seq<FsFile>,
    b: Seq<FsFile>,
    children: Seq<Seq<(String, FsFileId)>>,
    id: int,
)
    requires
        frame_ok(a, b),
    ensures
        node_size(b, children, id) == node_size(a, children, id),
    decreases a.len() - id, 1int, 0int,
{
    if 0 <= id < a.len() && a.len() == children.len() {
        if !(a[id].ftype is File) {
            lemma_list_size_frame(a, b, children, children[id], id);
        }
    }
}

proof fn lemma_list_size_frame(
    a: Seq<FsFile>,
    b: Seq<FsFile>,
    children: Seq<Seq<(String, FsFileId)>>,
    lst: Seq<(String, FsFileId)>,
    id: int,
)
    requires
        frame_ok(a, b),
    ensures
        list_size(b, children, lst, id) == list_size(a, children, lst, id),
    decreases a.len() - id, 0int, lst.len() + 1,
{
    if lst.len() > 0 {
        let cid = lst[0].1 as int;
        if id < cid < a.len() {
            lemma_node_size_frame(a, b, children, cid);
        }
        assert(entry_size(b, children, lst[0], id) == entry_size(a, children, lst[0], id));
        lemma_list_size_frame(a, b, children, lst.drop_first(), id);
    }
}

/// Recursive sizes are non-negative.
proof fn lemma_node_size_nonneg(
    inodes: Seq<FsFile>,
    children: Seq<Seq<(String, FsFileId)>>,
    id: int,
)
    ensures
        node_size(inodes, children, id) >= 0,
    decreases inodes.len() - id, 1int, 0int,
{
    if 0 <= id < inodes.len() && inodes.len() == children.len() {
        if !(inodes[id].ftype is File) {
            lemma_list_size_nonneg(inodes, children, children[id], id);
        }
    }
}

proof fn lemma_list_size_nonneg(
    inodes: Seq<FsFile>,
    children: Seq<Seq<(String, FsFileId)>>,
    lst: Seq<(String, FsFileId)>,
    id: int,
)
    ensures
        list_size(inodes, children, lst, id) >= 0,
    decreases inodes.len() - id, 0int, lst.len() + 1,
{
    if lst.len() > 0 {
        let cid = lst[0].1 as int;
        if id < cid < inodes.len() {
            lemma_node_size_nonneg(inodes, children, cid);
        }
        assert(entry_size(inodes, children, lst[0], id) >= 0);
        lemma_list_size_nonneg(inodes, children, lst.drop_first(), id);
    }
}

/// A listing's summed size splits at any position.
proof fn lemma_list_size_split(
    inodes: Seq<FsFile>,
    children: Seq<Seq<(String, FsFileId)>>,
    lst: Seq<(String, FsFileId)>,
    id: int,
    j: int,
)
    requires
        0 <= j <= lst.len(),
    ensures
        list_size(inodes, children, lst, id) == list_size(inodes, children, lst.take(j), id)
            + list_size(inodes, children, lst.skip(j), id),
    decreases j,
{
    if j == 0 {
        assert(lst.take(0) =~= Seq::<(String, FsFileId)>::empty());
        assert(lst.skip(0) =~= lst);
    } else {
        assert(lst.len() > 0);
        lemma_list_size_split(inodes, children, lst.drop_first(), id, j - 1);
        assert(lst.take(j).drop_first() =~= lst.drop_first().take(j - 1));
        assert(lst.skip(j) =~= lst.drop_first().skip(j - 1));
        assert(lst.take(j)[0] == lst[0]);
        assert(lst.take(j).len() > 0);
    }
}

/// Walks a directory's listings depth-first, recording each directory's
/// recursive size and returning the root's.
fn measure_sizes(
    children: &Vec<Vec<(String, FsFileId)>>,
    inodes: &mut Vec<FsFile>,
    root: usize,
) -> (size: u64)
    requires
        struct_ok(old(inodes)@, kid_views(*children)),
        root < old(inodes)@.len(),
        old(inodes)@[root as int].ftype is Directory,
        node_size(old(inodes)@, kid_views(*children), root as int) <= u64::MAX,
    ensures
        frame_ok(old(inodes)@, final(inodes)@),
        struct_ok(final(inodes)@, kid_views(*children)),
        size == node_size(old(inodes)@, kid_views(*children), root as int),
        final(inodes)@[root as int].size == size,
        forall|d: int|
            0 <= d < final(inodes)@.len() && listed_under(
                kid_views(*children),
                root as int,
                d,
            ) && (#[trigger] final(inodes)@[d]).ftype is Directory ==> final(inodes)@[d].size
                == node_size(old(inodes)@, kid_views(*children), d),
        forall|d: int|
            0 <= d < final(inodes)@.len() && !listed_under(
                kid_views(*children),
                root as int,
                d,
            ) ==> (#[trigger] final(inodes)@[d]).size == old(inodes)@[d].size,
    decreases old(inodes)@.len() - root,
{
    let ghost kv = kid_views(*children);
    let ghost inodes0 = inodes@;
    let lst = &children[root];
    proof {
        assert(lst@ == kv[root as int]);
        lemma_list_size_nonneg(inodes0, kv, lst@, root as int);
    }
    let mut size: u64 = 0;
    let mut k: usize = 0;
    while k < lst.len()
        invariant
            inodes0 == old(inodes)@,
            kv == kid_views(*children),
            struct_ok(inodes0, kv),
            frame_ok(inodes0, inodes@),
            struct_ok(inodes@, kv),
            root < inodes0.len(),
            inodes0[root as int].ftype is Directory,
            lst@ == kv[root as int],
            node_size(inodes0, kv, root as int) <= u64::MAX,
            node_size(inodes0, kv, root as int) == list_size(inodes0, kv, lst@, root as int),
            k <= lst@.len(),
            size == list_size(inodes0, kv, lst@.take(k as int), root as int),
            forall|d: int|
                0 <= d < inodes0.len() && !listed_under(kv, root as int, d) ==> (
                #[trigger] inodes@[d]).size == inodes0[d].size,
            forall|d: int|
                0 <= d < inodes0.len() && (#[trigger] inodes@[d]).ftype is Directory && (
                exists|j: int|
                    0 <= j < k && listed_under(kv, (#[trigger] lst@[j]).1 as int, d)) ==> inodes@[
                    d
                ].size == node_size(inodes0, kv, d),
        decreases lst@.len() - k,
    {
        proof {
            lemma_list_size_split(inodes0, kv, lst@, root as int, k as int);
            lemma_list_size_split(inodes0, kv, lst@, root as int, k + 1);
            assert(lst@.take(k + 1).drop_last() =~= lst@.take(k as int));
            assert(lst@.take(k + 1) =~= lst@.take(k as int).push(lst@[k as int]));
            // One more entry splits off the front of the remainder.
            assert(lst@.skip(k as int).drop_first() =~= lst@.skip(k + 1));
            assert(lst@.skip(k as int)[0] == lst@[k as int]);
            lemma_list_size_nonneg(inodes0, kv, lst@.take(k as int), root as int);
            lemma_list_size_nonneg(inodes0, kv, lst@.skip(k + 1), root as int);
            assert(list_size(inodes0, kv, lst@.take(k + 1), root as int) == list_size(
                inodes0,
                kv,
                lst@.take(k as int),
                root as int,
            ) + entry_size(inodes0, kv, lst@[k as int], root as int)) by {
                lemma_list_size_split(inodes0, kv, lst@.take(k + 1), root as int, k as int);
                assert(lst@.take(k + 1).take(k as int) =~= lst@.take(k as int));
                assert(lst@.take(k + 1).skip(k as int) =~= seq![lst@[k as int]]);
                assert(seq![lst@[k as int]].drop_first()
                    =~= Seq::<(String, FsFileId)>::empty());
            }
        }
        let child_id = lst[k].1;
        proof {
            assert(kv[root as int][k as int] == lst@[k as int]);
            assert((root as int) < child_id < inodes0.len());
            lemma_node_size_frame(inodes0, inodes@, kv, child_id as int);
            lemma_node_size_nonneg(inodes0, kv, child_id as int);
        }
        let child_is_dir = inodes[child_id].ftype == FsFileType::Directory;
        let contribution: u64;
        if child_is_dir {
            proof {
                assert(inodes@.len() == inodes0.len());
                assert(node_size(inodes@, kv, child_id as int) == node_size(
                    inodes0,
                    kv,
                    child_id as int,
                ));
                assert(entry_size(inodes0, kv, lst@[k as int], root as int) == node_size(
                    inodes0,
                    kv,
                    child_id as int,
                ));
                assert(node_size(inodes0, kv, child_id as int) <= list_size(
                    inodes0,
                    kv,
                    lst@,
                    root as int,
                ));
                assert(node_size(inodes@, kv, child_id as int) <= u64::MAX);
            }
            let ghost pre = inodes@;
            contribution = measure_sizes(children, inodes, child_id);
            proof {
                assert(contribution == node_size(inodes0, kv, child_id as int));
                assert(listing_edge(kv, root as int, child_id as int)) by {
                    assert(kv[root as int][k as int].1 == child_id);
                }
                // Sizes outside the probed subtrees are untouched; sizes
                // inside were rewritten to their state-independent exact
                // values, so earlier results are preserved.
                assert forall|d: int|
                    0 <= d < inodes0.len() && !listed_under(kv, root as int, d) implies (
                #[trigger] inodes@[d]).size == inodes0[d].size by {
                    if listed_under(kv, child_id as int, d) {
                        lemma_listed_wrap(kv, root as int, child_id as int, d);
                    }
                    assert(inodes@[d].size == pre[d].size);
                }
                assert forall|d: int|
                    0 <= d < inodes0.len() && (#[trigger] inodes@[d]).ftype is Directory && (
                    exists|j: int|
                        0 <= j < k + 1 && listed_under(kv, (#[trigger] lst@[j]).1 as int, d))
                    implies inodes@[d].size == node_size(inodes0, kv, d) by {
                    lemma_node_size_frame(inodes0, pre, kv, d);
                    if listed_under(kv, child_id as int, d) {
                        assert(inodes@[d].size == node_size(pre, kv, d));
                    } else {
                        let j = choose|j: int|
                            0 <= j < k + 1 && listed_under(
                                kv,
                                (#[trigger] lst@[j]).1 as int,
                                d,
                            );
                        assert(j < k);
                        assert(pre[d].ftype == inodes@[d].ftype);
                        assert(pre[d].size == node_size(inodes0, kv, d));
                        assert(inodes@[d].size == pre[d].size);
                    }
                }
            }
        } else {
            contribution = inodes[child_id].size;
            proof {
                assert(inodes@[child_id as int].ftype is File);
                assert(node_size(inodes0, kv, child_id as int) == inodes0[
                    child_id as int
                ].size);
                assert(contribution == node_size(inodes0, kv, child_id as int));
                // A file has no listings, so only the file itself sits in
                // its probed subtree, and nothing changed this iteration.
                assert forall|d: int|
                    0 <= d < inodes0.len() && (#[trigger] inodes@[d]).ftype is Directory && (
                    exists|j: int|
                        0 <= j < k + 1 && listed_under(kv, (#[trigger] lst@[j]).1 as int, d))
                    implies inodes@[d].size == node_size(inodes0, kv, d) by {
                    let j = choose|j: int|
                        0 <= j < k + 1 && listed_under(kv, (#[trigger] lst@[j]).1 as int, d);
                    if j == k {
                        assert(listed_under(kv, child_id as int, d));
                        assert(kv[child_id as int].len() == 0);
                        lemma_listed_under_leaf(kv, child_id as int, d);
                        assert(inodes@[d].ftype is File);
                    }
                }
            }
        }
        proof {
            assert(frame_ok(inodes0, inodes@));
            assert(entry_size(inodes0, kv, lst@[k as int], root as int) == contribution);
        }
        size = size + contribution;
        k += 1;
    }
    proof {
        assert(lst@.take(lst@.len() as int) =~= lst@);
    }
    let ghost before_root = inodes@;
    let mut node = inodes.remove(root);
    node.size = size;
    let ghost updated = node;
    inodes.insert(root, node);
    proof {
        assert(inodes@ =~= inodes@.subrange(0, inodes@.len() as int));
        assert forall|i: int|
            0 <= i < inodes0.len() implies (#[trigger] inodes@[i]).ftype == inodes0[i].ftype
            && inodes@[i].name@ == inodes0[i].name@ && inodes@[i].parent == inodes0[i].parent
            && (inodes0[i].ftype is File ==> inodes@[i].size == inodes0[i].size) by {}
        assert(inodes@ =~= before_root.update(root as int, updated));
        assert forall|d: int|
            0 <= d < inodes@.len() && listed_under(kv, root as int, d) && (
        #[trigger] inodes@[d]).ftype is Directory implies inodes@[d].size == node_size(
            inodes0,
            kv,
            d,
        ) by {
            if d != root {
                lemma_listed_elim(kv, root as int, d);
                let b = choose|b: int|
                    #[trigger] listing_edge(kv, root as int, b) && listed_under(kv, b, d);
                let kk = choose|kk: int|
                    0 <= kk < kv[root as int].len() && (#[trigger] kv[root as int][kk]).1
                        == b;
                assert(inodes@[d] == before_root[d]);
                assert(before_root[d].ftype is Directory);
                assert(lst@[kk].1 as int == b);
                assert(0 <= kk < lst@.len() && listed_under(kv, lst@[kk].1 as int, d));
                assert(before_root[d].size == node_size(inodes0, kv, d));
            }
        }
        assert forall|d: int|
            0 <= d < inodes@.len() && !listed_under(kv, root as int, d) implies (
        #[trigger] inodes@[d]).size == inodes0[d].size by {
            lemma_listed_refl(kv, root as int);
            assert(d != root);
            assert(inodes@[d] == before_root[d]);
        }
    }
    size
}

impl FileSystem {
    /// Fills every directory's recorded size from the root downwards and
    /// returns the filesystem: afterwards every directory still listed
    /// (transitively) under the root records exactly the recursive size of
    /// its subtree, and the root records the size of the whole tree. A
    /// directory orphaned by a listing overwrite is not visited and keeps
    /// its previous recorded size.
    pub fn finalize(self) -> (r: FileSystem)
        requires
            self.wf(),
            node_size(self.spec_inodes(), self.spec_children(), 0) <= u64::MAX,
        ensures
            r.wf(),
            r.spec_children() == self.spec_children(),
            r.spec_pwd() == self.spec_pwd(),
            r.spec_total_size() == self.spec_total_size(),
            frame_ok(self.spec_inodes(), r.spec_inodes()),
            r.spec_inodes()[0].size == node_size(self.spec_inodes(), self.spec_children(), 0),
            forall|d: int|
                0 <= d < r.spec_inodes().len() && listed_under(self.spec_children(), 0, d)
                    && (#[trigger] r.spec_inodes()[d]).ftype is Directory
                    ==> r.spec_inodes()[d].size == node_size(
                    self.spec_inodes(),
                    self.spec_children(),
                    d,
                ),
            forall|d: int|
                0 <= d < r.spec_inodes().len() && !listed_under(self.spec_children(), 0, d)
                    ==> (#[trigger] r.spec_inodes()[d]).size == self.spec_inodes()[d].size,
    {
        let FileSystem { free_id, mut inodes, children, pwd, total_size } = self;
        proof {
            assert(kid_views(children) == self.spec_children());
        }
        measure_sizes(&children, &mut inodes, 0);
        let r = FileSystem { free_id, inodes, children, pwd, total_size };
        proof {
            assert(r.spec_children() == self.spec_children());
            assert forall|i: int|
                0 <= i < r.spec_inodes().len() implies r.spec_inodes()[#[trigger] parent_of(
                r.spec_inodes(),
                i,
            )].ftype is Directory by {
                assert(self.spec_inodes()[parent_of(self.spec_inodes(), i)].ftype
                    is Directory);
                assert(parent_of(r.spec_inodes(), i) == parent_of(self.spec_inodes(), i));
            }
            assert(r.wf());
        }
        r
    }

    /// The smallest recorded size that must be deleted to free `to_free`
    /// bytes: `Some(0)` when enough space is already free, otherwise the
    /// minimum recorded size among directories (the root excepted) at least
    /// as large as the shortfall, or `None` when no single directory
    /// suffices.
    pub fn delete_to_free(&self, to_free: u64) -> (r: Option<u64>)
        requires
            self.wf(),
            self.spec_inodes()[0].size <= self.spec_total_size(),
        ensures
            ({
                let inodes = self.spec_inodes();
                let currently_free = self.spec_total_size() - inodes[0].size;
                if currently_free >= to_free {
                    r == Some(0u64)
                } else {
                    let need = to_free - currently_free;
                    match r {
                        Some(m) => {
                            &&& m >= need
                            &&& exists|d: int|
                                1 <= d < inodes.len() && (#[trigger] inodes[d]).ftype
                                    is Directory && inodes[d].size == m
                            &&& forall|d: int|
                                1 <= d < inodes.len() && (#[trigger] inodes[d]).ftype
                                    is Directory && inodes[d].size >= need ==> m <= inodes[
                                    d
                                ].size
                        },
                        None => forall|d: int|
                            1 <= d < inodes.len() && (#[trigger] inodes[d]).ftype
                                is Directory ==> inodes[d].size < need,
                    }
                }
            }),
    {
        let occupied = self.occupied_size();
        let currently_free = self.total_size - occupied;
        if currently_free >= to_free {
            return Some(0);
        }
        let need = to_free - currently_free;
        let mut best: Option<u64> = None;
        let mut d: usize = 1;
        while d < self.inodes.len()
            invariant
                self.wf(),
                1 <= d <= self.spec_inodes().len(),
                match best {
                    Some(m) => {
                        &&& m >= need
                        &&& exists|i: int|
                            1 <= i < d && (#[trigger] self.spec_inodes()[i]).ftype
                                is Directory && self.spec_inodes()[i].size == m
                        &&& forall|i: int|
                            1 <= i < d && (#[trigger] self.spec_inodes()[i]).ftype
                                is Directory && self.spec_inodes()[i].size >= need ==> m
                                <= self.spec_inodes()[i].size
                    },
                    None => forall|i: int|
                        1 <= i < d && (#[trigger] self.spec_inodes()[i]).ftype is Directory
                            ==> self.spec_inodes()[i].size < need,
                },
            decreases self.spec_inodes().len() - d,
        {
            let node = &self.inodes[d];
            if node.is_directory() && node.size >= need {
                best = match best {
                    Some(m) => if node.size < m {
                        Some(node.size)
                    } else {
                        Some(m)
                    },
                    None => Some(node.size),
                };
            }
            d += 1;
        }
        best
    }

    /// The space the whole tree occupies: the root's recorded size.
    pub fn occupied_size(&self) -> (r: u64)
        requires
            self.wf(),
        ensures
            r == self.spec_inodes()[0].size,
    {
        self.inodes[0].size
    }
}

/// The sum, over the directories of the subtree rooted at `id`, of each
/// recorded size that is at most `limit`.
pub open spec fn below_node(
    inodes: Seq<FsFile>,
    children: Seq<Seq<(String, FsFileId)>>,
    limit: int,
    id: int,
) -> int
    decreases inodes.len() - id, 1int, 0int,
{
    if !(0 <= id < inodes.len() && inodes.len() == children.len()) {
        0
    } else {
        (if inodes[id].size <= limit {
            inodes[id].size as int
        } else {
            0
        }) + below_list(inodes, children, children[id], limit, id)
    }
}

pub open spec fn below_list(
    inodes: Seq<FsFile>,
    children: Seq<Seq<(String, FsFileId)>>,
    lst: Seq<(String, FsFileId)>,
    limit: int,
    id: int,
) -> int
    decreases inodes.len() - id, 0int, lst.len(),
{
    if lst.len() == 0 {
        0
    } else {
        below_entry(inodes, children, lst[0], limit, id) + below_list(
            inodes,
            children,
            lst.drop_first(),
            limit,
            id,
        )
    }
}

pub open spec fn below_entry(
    inodes: Seq<FsFile>,
    children: Seq<Seq<(String, FsFileId)>>,
    entry: (String, FsFileId),
    limit: int,
    id: int,
) -> int
    decreases inodes.len() - id, 0int, 0int,
{
    let cid = entry.1 as int;
    if id < cid < inodes.len() && inodes[cid].ftype is Directory {
        below_node(inodes, children, limit, cid)
    } else {
        0
    }
}

proof fn lemma_below_node_nonneg(
    inodes: Seq<FsFile>,
    children: Seq<Seq<(String, FsFileId)>>,
    limit: int,
    id: int,
)
    ensures
        below_node(inodes, children, limit, id) >= 0,
    decreases inodes.len() - id, 1int, 0int,
{
    if 0 <= id < inodes.len() && inodes.len() == children.len() {
        lemma_below_list_nonneg(inodes, children, children[id], limit, id);
    }
}

proof fn lemma_below_list_nonneg(
    inodes: Seq<FsFile>,
    children: Seq<Seq<(String, FsFileId)>>,
    lst: Seq<(String, FsFileId)>,
    limit: int,
    id: int,
)
    ensures
        below_list(inodes, children, lst, limit, id) >= 0,
    decreases inodes.len() - id, 0int, lst.len() + 1,
{
    if lst.len() > 0 {
        let cid = lst[0].1 as int;
        if id < cid < inodes.len() && inodes[cid].ftype is Directory {
            lemma_below_node_nonneg(inodes, children, limit, cid);
        }
        assert(below_entry(inodes, children, lst[0], limit, id) >= 0);
        lemma_below_list_nonneg(inodes, children, lst.drop_first(), limit, id);
    }
}

proof fn lemma_below_list_split(
    inodes: Seq<FsFile>,
    children: Seq<Seq<(String, FsFileId)>>,
    lst: Seq<(String, FsFileId)>,
    limit: int,
    id: int,
    j: int,
)
    requires
        0 <= j <= lst.len(),
    ensures
        below_list(inodes, children, lst, limit, id) == below_list(
            inodes,
            children,
            lst.take(j),
            limit,
            id,
        ) + below_list(inodes, children, lst.skip(j), limit, id),
    decreases j,
{
    if j == 0 {
        assert(lst.take(0) =~= Seq::<(String, FsFileId)>::empty());
        assert(lst.skip(0) =~= lst);
    } else {
        assert(lst.len() > 0);
        lemma_below_list_split(inodes, children, lst.drop_first(), limit, id, j - 1);
        assert(lst.take(j).drop_first() =~= lst.drop_first().take(j - 1));
        assert(lst.skip(j) =~= lst.drop_first().skip(j - 1));
        assert(lst.take(j)[0] == lst[0]);
        assert(lst.take(j).len() > 0);
    }
}

impl FileSystem {
    /// The sum of the recorded sizes of all directories of size at most
    /// `limit`, searched recursively from the root.
    pub fn total_size_below(&self, limit: u64) -> (r: u64)
        requires
            self.wf(),
            below_node(self.spec_inodes(), self.spec_children(), limit as int, 0)
                <= u64::MAX,
        ensures
            r == below_node(self.spec_inodes(), self.spec_children(), limit as int, 0),
    {
        self.total_size_below_recursive(limit, 0)
    }

    /// The same sum over the subtree rooted at `root`.
    pub fn total_size_below_recursive(&self, limit: u64, root: FsFileId) -> (r: u64)
        requires
            self.wf(),
            root < self.spec_inodes().len(),
            below_node(self.spec_inodes(), self.spec_children(), limit as int, root as int)
                <= u64::MAX,
        ensures
            r == below_node(
                self.spec_inodes(),
                self.spec_children(),
                limit as int,
                root as int,
            ),
    decreases self.spec_inodes().len() - root,
    {
        let ghost inodes = self.spec_inodes();
        let ghost kv = self.spec_children();
        let ghost lim = limit as int;
        let inode_size = self.inodes[root].size;
        let mut total: u64 = 0;
        if inode_size <= limit {
            total = inode_size;
        }
        let lst = &self.children[root];
        proof {
            assert(lst@ == kv[root as int]);
            lemma_below_list_nonneg(inodes, kv, lst@, lim, root as int);
        }
        let mut k: usize = 0;
        while k < lst.len()
            invariant
                self.wf(),
                inodes == self.spec_inodes(),
                kv == self.spec_children(),
                lim == limit as int,
                root < inodes.len(),
                lst@ == kv[root as int],
                below_node(inodes, kv, lim, root as int) <= u64::MAX,
                total == (if inodes[root as int].size <= lim {
                    inodes[root as int].size as int
                } else {
                    0
                }) + below_list(inodes, kv, lst@.take(k as int), lim, root as int),
                below_node(inodes, kv, lim, root as int) == (if inodes[root as int].size
                    <= lim {
                    inodes[root as int].size as int
                } else {
                    0
                }) + below_list(inodes, kv, lst@, lim, root as int),
                k <= lst@.len(),
            decreases lst@.len() - k,
        {
            proof {
                lemma_below_list_split(inodes, kv, lst@, lim, root as int, k as int);
                assert(lst@.skip(k as int).drop_first() =~= lst@.skip(k + 1));
                assert(lst@.skip(k as int)[0] == lst@[k as int]);
                lemma_below_list_nonneg(inodes, kv, lst@.take(k as int), lim, root as int);
                lemma_below_list_nonneg(inodes, kv, lst@.skip(k + 1), lim, root as int);
                assert(below_list(inodes, kv, lst@.take(k + 1), lim, root as int)
                    == below_list(inodes, kv, lst@.take(k as int), lim, root as int)
                    + below_entry(inodes, kv, lst@[k as int], lim, root as int)) by {
                    lemma_below_list_split(
                        inodes,
                        kv,
                        lst@.take(k + 1),
                        lim,
                        root as int,
                        k as int,
                    );
                    assert(lst@.take(k + 1).take(k as int) =~= lst@.take(k as int));
                    assert(lst@.take(k + 1).skip(k as int) =~= seq![lst@[k as int]]);
                    assert(seq![lst@[k as int]].drop_first()
                        =~= Seq::<(String, FsFileId)>::empty());
                    assert(below_list(
                        inodes,
                        kv,
                        Seq::<(String, FsFileId)>::empty(),
                        lim,
                        root as int,
                    ) == 0);
                    assert(below_list(inodes, kv, seq![lst@[k as int]], lim, root as int)
                        == below_entry(inodes, kv, lst@[k as int], lim, root as int));
                }
            }
            let child_id = lst[k].1;
            proof {
                assert(kv[root as int][k as int] == lst@[k as int]);
                assert((root as int) < child_id < inodes.len());
            }
            let child = &self.inodes[child_id];
            if child.is_directory() {
                proof {
                    assert(below_entry(inodes, kv, lst@[k as int], lim, root as int)
                        == below_node(inodes, kv, lim, child_id as int));
                    lemma_below_node_nonneg(inodes, kv, lim, child_id as int);
                }
                let sub = self.total_size_below_recursive(limit, child_id);
                total = total + sub;
            } else {
                proof {
                    assert(below_entry(inodes, kv, lst@[k as int], lim, root as int) == 0);
                }
            }
            k += 1;
        }
        proof {
            assert(lst@.take(lst@.len() as int) =~= lst@);
        }
        total
    }
}

} // verus!